//! The block file layout: a header of seven cumulative byte offsets, then the
//! start and end timestamps and five byte sections. Offsets and timestamps
//! are 64-bit little-endian words.
use vstd::prelude::*;

verus! {

/// Number of offsets in the header.
pub const HEADER_SIZE: usize = 7;

/// Bytes taken by the header.
pub const HEADER_BYTES: usize = 56;

/// Why bytes could not be read as a block.
#[derive(Debug, Clone, Copy, PartialEq, Eq)]
pub enum CodecError {
    /// The bytes break the layout, or a section does not decode.
    CorruptBlock,
    /// A block without records has no time bounds to write.
    EmptyBlock,
    /// A section could not be encoded.
    EncodeFailed,
}

/// The little-endian bytes of a word.
pub open spec fn le_bytes(x: u64) -> Seq<u8> {
    seq![
        (x & 0xff) as u8,
        ((x >> 8u64) & 0xff) as u8,
        ((x >> 16u64) & 0xff) as u8,
        ((x >> 24u64) & 0xff) as u8,
        ((x >> 32u64) & 0xff) as u8,
        ((x >> 40u64) & 0xff) as u8,
        ((x >> 48u64) & 0xff) as u8,
        ((x >> 56u64) & 0xff) as u8,
    ]
}

/// The word whose little-endian bytes start at `at`.
pub open spec fn le_word(b: Seq<u8>, at: int) -> u64 {
    (b[at] as u64) | ((b[at + 1] as u64) << 8u64) | ((b[at + 2] as u64) << 16u64) | ((b[at
        + 3] as u64) << 24u64) | ((b[at + 4] as u64) << 32u64) | ((b[at + 5] as u64) << 40u64)
        | ((b[at + 6] as u64) << 48u64) | ((b[at + 7] as u64) << 56u64)
}

proof fn lemma_le_round_trip(x: u64)
    ensures
        le_word(le_bytes(x), 0) == x,
{
    let b = le_bytes(x);
    let (b0, b1, b2, b3, b4, b5, b6, b7) = (b[0], b[1], b[2], b[3], b[4], b[5], b[6], b[7]);
    assert(b0 == (x & 0xff) as u8 && b1 == ((x >> 8u64) & 0xff) as u8 && b2 == ((x >> 16u64)
        & 0xff) as u8 && b3 == ((x >> 24u64) & 0xff) as u8 && b4 == ((x >> 32u64) & 0xff) as u8
        && b5 == ((x >> 40u64) & 0xff) as u8 && b6 == ((x >> 48u64) & 0xff) as u8 && b7 == ((x
        >> 56u64) & 0xff) as u8 ==> (b0 as u64) | ((b1 as u64) << 8u64) | ((b2 as u64) << 16u64)
        | ((b3 as u64) << 24u64) | ((b4 as u64) << 32u64) | ((b5 as u64) << 40u64) | ((b6 as u64)
        << 48u64) | ((b7 as u64) << 56u64) == x) by (bit_vector);
}

/// Appends the little-endian bytes of `x`.
pub fn push_le(out: &mut Vec<u8>, x: u64)
    ensures
        final(out)@ == old(out)@ + le_bytes(x),
{
    out.push((x & 0xff) as u8);
    out.push(((x >> 8u64) & 0xff) as u8);
    out.push(((x >> 16u64) & 0xff) as u8);
    out.push(((x >> 24u64) & 0xff) as u8);
    out.push(((x >> 32u64) & 0xff) as u8);
    out.push(((x >> 40u64) & 0xff) as u8);
    out.push(((x >> 48u64) & 0xff) as u8);
    out.push(((x >> 56u64) & 0xff) as u8);
    assert(out@ =~= old(out)@ + le_bytes(x));
}

/// Reads the word whose little-endian bytes start at `at`.
pub fn read_le(b: &[u8], at: usize) -> (r: u64)
    requires
        at + 8 <= b@.len(),
    ensures
        r == le_word(b@, at as int),
{
    (b[at] as u64) | ((b[at + 1] as u64) << 8u64) | ((b[at + 2] as u64) << 16u64) | ((b[at
        + 3] as u64) << 24u64) | ((b[at + 4] as u64) << 32u64) | ((b[at + 5] as u64) << 40u64)
        | ((b[at + 6] as u64) << 48u64) | ((b[at + 7] as u64) << 56u64)
}

/// The exclusive end offsets of the seven sections, for sections of the
/// given lengths after the two timestamps.
pub open spec fn offsets(lens: Seq<int>) -> Seq<int> {
    let o1 = HEADER_BYTES + 8;
    let o2 = o1 + 8;
    seq![
        o1,
        o2,
        o2 + lens[0],
        o2 + lens[0] + lens[1],
        o2 + lens[0] + lens[1] + lens[2],
        o2 + lens[0] + lens[1] + lens[2] + lens[3],
        o2 + lens[0] + lens[1] + lens[2] + lens[3] + lens[4],
    ]
}

pub open spec fn section_lens(s: Seq<Seq<u8>>) -> Seq<int> {
    s.map_values(|x: Seq<u8>| x.len() as int)
}

/// The header's offsets as read from the bytes.
pub open spec fn header_of(b: Seq<u8>) -> Seq<int> {
    Seq::new(7, |k: int| le_word(b, 8 * k) as int)
}

/// The bytes hold a well-formed frame: a full header whose offsets place the
/// two timestamps right after it and then ascend to the end of the bytes.
pub open spec fn frame_ok(b: Seq<u8>) -> bool {
    b.len() >= HEADER_BYTES && {
        let o = header_of(b);
        &&& o[0] == HEADER_BYTES + 8
        &&& o[1] == HEADER_BYTES + 16
        &&& forall|k: int| 1 <= k < 6 ==> #[trigger] o[k] <= o[k + 1]
        &&& o[6] == b.len()
    }
}

/// The five sections of a well-formed frame.
pub open spec fn frame_sections(b: Seq<u8>) -> Seq<Seq<u8>> {
    let o = header_of(b);
    Seq::new(5, |k: int| b.subrange(o[k + 1], o[k + 2]))
}

/// A frame's parts: its start and end timestamps and its five sections.
pub struct Frame {
    pub start: i64,
    pub end: i64,
    pub sections: Vec<Vec<u8>>,
}

pub open spec fn sections_view(s: Seq<Vec<u8>>) -> Seq<Seq<u8>> {
    s.map_values(|x: Vec<u8>| x@)
}

/// The words' little-endian bytes, one after another.
pub open spec fn words_bytes(ws: Seq<u64>) -> Seq<u8>
    decreases ws.len(),
{
    if ws.len() == 0 {
        Seq::empty()
    } else {
        words_bytes(ws.drop_last()) + le_bytes(ws.last())
    }
}

/// The first `k` sections, one after another.
pub open spec fn sections_prefix(sv: Seq<Seq<u8>>, k: nat) -> Seq<u8>
    decreases k,
{
    if k == 0 {
        Seq::empty()
    } else {
        sections_prefix(sv, (k - 1) as nat) + sv[k as int - 1]
    }
}

/// The nine words that open a frame: the seven offsets, then the start and
/// end timestamps.
pub open spec fn frame_words(start: i64, end: i64, s: Seq<Seq<u8>>) -> Seq<u64> {
    let o = offsets(section_lens(s));
    seq![
        o[0] as u64,
        o[1] as u64,
        o[2] as u64,
        o[3] as u64,
        o[4] as u64,
        o[5] as u64,
        o[6] as u64,
        start as u64,
        end as u64,
    ]
}

/// The bytes of a frame: header, timestamps, then the five sections.
pub open spec fn frame_bytes(start: i64, end: i64, s: Seq<Seq<u8>>) -> Seq<u8> {
    words_bytes(frame_words(start, end, s)) + sections_prefix(s, 5)
}

proof fn lemma_words_bytes_len(ws: Seq<u64>)
    ensures
        words_bytes(ws).len() == 8 * ws.len(),
    decreases ws.len(),
{
    if ws.len() > 0 {
        lemma_words_bytes_len(ws.drop_last());
    }
}

proof fn lemma_words_bytes_read(ws: Seq<u64>, tail: Seq<u8>, k: int)
    requires
        0 <= k < ws.len(),
    ensures
        le_word(words_bytes(ws) + tail, 8 * k) == ws[k],
    decreases ws.len(),
{
    let init = ws.drop_last();
    lemma_words_bytes_len(init);
    if k == ws.len() - 1 {
        let b = words_bytes(ws) + tail;
        let x = ws.last();
        assert(words_bytes(ws) == words_bytes(init) + le_bytes(x));
        assert forall|j: int| 0 <= j < 8 implies b[8 * k + j] == le_bytes(x)[j] by {
            assert(b[8 * k + j] == words_bytes(ws)[8 * k + j]);
        }
        lemma_le_round_trip(x);
        assert(le_word(b, 8 * k) == le_word(le_bytes(x), 0));
    } else {
        lemma_words_bytes_read(init, le_bytes(ws.last()) + tail, k);
        assert(words_bytes(ws) + tail =~= words_bytes(init) + (le_bytes(ws.last()) + tail));
    }
}

/// The bytes of a frame holding the timestamps and the five sections.
pub fn encode_frame(start: i64, end: i64, sections: &Vec<Vec<u8>>) -> (r: Vec<u8>)
    requires
        sections@.len() == 5,
        HEADER_BYTES + 16 + sections@[0]@.len() + sections@[1]@.len() + sections@[2]@.len()
            + sections@[3]@.len() + sections@[4]@.len() <= u64::MAX,
    ensures
        r@ == frame_bytes(start, end, sections_view(sections@)),
{
    let ghost sv = sections_view(sections@);
    let ghost fw = frame_words(start, end, sv);
    let mut ws: Vec<u64> = Vec::new();
    let mut cum: u64 = (HEADER_BYTES + 16) as u64;
    ws.push((HEADER_BYTES + 8) as u64);
    ws.push(cum);
    let mut k: usize = 0;
    while k < 5
        invariant
            k <= 5,
            sections@.len() == 5,
            sv == sections_view(sections@),
            fw == frame_words(start, end, sv),
            HEADER_BYTES + 16 + sections@[0]@.len() + sections@[1]@.len() + sections@[2]@.len()
                + sections@[3]@.len() + sections@[4]@.len() <= u64::MAX,
            ws@.len() == k + 2,
            cum == fw[k + 1],
            forall|j: int| 0 <= j < k + 2 ==> #[trigger] ws@[j] == fw[j],
        decreases 5 - k,
    {
        cum = cum + sections[k].len() as u64;
        ws.push(cum);
        k = k + 1;
    }
    ws.push(start as u64);
    ws.push(end as u64);
    assert(ws@ =~= fw);
    let mut out: Vec<u8> = Vec::new();
    let mut k: usize = 0;
    while k < ws.len()
        invariant
            k <= ws@.len(),
            out@ == words_bytes(ws@.take(k as int)),
        decreases ws.len() - k,
    {
        push_le(&mut out, ws[k]);
        assert(ws@.take(k + 1).drop_last() =~= ws@.take(k as int));
        k = k + 1;
    }
    assert(ws@.take(ws@.len() as int) =~= ws@);
    let ghost head = out@;
    let mut k: usize = 0;
    assert(out@ =~= head + sections_prefix(sv, 0));
    while k < 5
        invariant
            k <= 5,
            sections@.len() == 5,
            sv == sections_view(sections@),
            out@ == head + sections_prefix(sv, k as nat),
        decreases 5 - k,
    {
        let mut i: usize = 0;
        let ghost base = out@;
        while i < sections[k].len()
            invariant
                i <= sections@[k as int]@.len(),
                k < 5,
                sections@.len() == 5,
                out@ =~= base + sections@[k as int]@.subrange(0, i as int),
            decreases sections@[k as int]@.len() - i,
        {
            out.push(sections[k][i]);
            i = i + 1;
        }
        assert(sections@[k as int]@.subrange(0, i as int) =~= sv[k as int]);
        assert(out@ =~= head + sections_prefix(sv, (k + 1) as nat));
        k = k + 1;
    }
    out
}

/// Reads a frame. It fails with `CorruptBlock` exactly where the bytes do
/// not hold a well-formed frame.
pub fn decode_frame(bytes: &[u8]) -> (r: Result<Frame, CodecError>)
    ensures
        r is Ok <==> frame_ok(bytes@),
        r matches Ok(f) ==> {
            &&& f.start == le_word(bytes@, HEADER_BYTES as int) as i64
            &&& f.end == le_word(bytes@, HEADER_BYTES + 8) as i64
            &&& sections_view(f.sections@) == frame_sections(bytes@)
        },
        r matches Err(e) ==> e == CodecError::CorruptBlock,
{
    if bytes.len() < HEADER_BYTES {
        return Err(CodecError::CorruptBlock);
    }
    let mut o: Vec<u64> = Vec::new();
    let mut k: usize = 0;
    while k < HEADER_SIZE
        invariant
            k <= 7,
            bytes@.len() >= HEADER_BYTES,
            o@.len() == k,
            forall|j: int| 0 <= j < k ==> o@[j] as int == #[trigger] header_of(bytes@)[j],
        decreases 7 - k,
    {
        o.push(read_le(bytes, 8 * k));
        k = k + 1;
    }
    if o[0] != (HEADER_BYTES + 8) as u64 || o[1] != (HEADER_BYTES + 16) as u64 || o[6]
        != bytes.len() as u64 {
        return Err(CodecError::CorruptBlock);
    }
    let mut k: usize = 1;
    while k < 6
        invariant
            1 <= k <= 6,
            o@.len() == 7,
            forall|j: int| 0 <= j < 7 ==> o@[j] as int == #[trigger] header_of(bytes@)[j],
            forall|j: int| 1 <= j < k ==> #[trigger] o@[j] <= o@[j + 1],
        decreases 6 - k,
    {
        if o[k] > o[k + 1] {
            assert(header_of(bytes@)[k as int] > header_of(bytes@)[k as int + 1]);
            return Err(CodecError::CorruptBlock);
        }
        k = k + 1;
    }
    proof {
        assert forall|j: int| 1 <= j < 6 implies #[trigger] header_of(bytes@)[j] <= header_of(
            bytes@,
        )[j + 1] by {
            assert(o@[j] <= o@[j + 1]);
            assert(o@[j + 1] as int == header_of(bytes@)[j + 1]);
        }
        assert(o@[5] <= o@[6]);
        assert(o@[4] <= o@[5]);
        assert(o@[3] <= o@[4]);
        assert(o@[2] <= o@[3]);
        assert(o@[1] <= o@[2]);
    }
    let start = read_le(bytes, HEADER_BYTES) as i64;
    let end = read_le(bytes, HEADER_BYTES + 8) as i64;
    let mut sections: Vec<Vec<u8>> = Vec::new();
    let n: usize = bytes.len();
    let mut k: usize = 0;
    while k < 5
        invariant
            k <= 5,
            n == bytes@.len(),
            o@.len() == 7,
            forall|j: int| 0 <= j < 7 ==> o@[j] as int == #[trigger] header_of(bytes@)[j],
            forall|j: int| 1 <= j < 6 ==> #[trigger] o@[j] <= o@[j + 1],
            forall|j: int| 1 <= j <= 6 ==> #[trigger] o@[j] as int <= bytes@.len(),
            sections@.len() == k,
            forall|j: int|
                0 <= j < k ==> (#[trigger] sections@[j])@ == frame_sections(bytes@)[j],
        decreases 5 - k,
    {
        assert(o@[k + 1] <= o@[k + 2]);
        assert(o@[k + 1] as int <= bytes@.len());
        assert(o@[k + 2] as int <= bytes@.len());
        let lo = o[k + 1] as usize;
        let hi = o[k + 2] as usize;
        let mut sec: Vec<u8> = Vec::new();
        let mut i: usize = lo;
        while i < hi
            invariant
                lo <= i <= hi,
                hi <= bytes@.len(),
                sec@ =~= bytes@.subrange(lo as int, i as int),
            decreases hi - i,
        {
            sec.push(bytes[i]);
            i = i + 1;
        }
        assert(o@[k + 1] as int == header_of(bytes@)[k + 1]);
        assert(o@[k + 2] as int == header_of(bytes@)[k + 2]);
        assert(sec@ == frame_sections(bytes@)[k as int]);
        sections.push(sec);
        k = k + 1;
    }
    assert(sections_view(sections@) =~= frame_sections(bytes@));
    Ok(Frame { start, end, sections })
}

proof fn lemma_sections_prefix(sv: Seq<Seq<u8>>, k: nat)
    requires
        k <= sv.len(),
    ensures
        forall|j: int|
            0 <= j < k ==> #[trigger] sections_prefix(sv, k).subrange(
                sections_prefix(sv, j as nat).len() as int,
                sections_prefix(sv, (j + 1) as nat).len() as int,
            ) == sv[j],
        forall|j: nat| j <= k ==> #[trigger] sections_prefix(sv, j).len() <= sections_prefix(
            sv,
            k,
        ).len(),
    decreases k,
{
    if k > 0 {
        let k1 = (k - 1) as nat;
        lemma_sections_prefix(sv, k1);
        let p = sections_prefix(sv, k1);
        assert(sections_prefix(sv, k) == p + sv[k - 1]);
        assert forall|j: int| 0 <= j < k implies #[trigger] sections_prefix(sv, k).subrange(
            sections_prefix(sv, j as nat).len() as int,
            sections_prefix(sv, (j + 1) as nat).len() as int,
        ) == sv[j] by {
            if j < k1 {
                assert(sections_prefix(sv, (j + 1) as nat).len() <= p.len());
                assert(sections_prefix(sv, k).subrange(
                    sections_prefix(sv, j as nat).len() as int,
                    sections_prefix(sv, (j + 1) as nat).len() as int,
                ) =~= p.subrange(
                    sections_prefix(sv, j as nat).len() as int,
                    sections_prefix(sv, (j + 1) as nat).len() as int,
                ));
            } else {
                assert(sections_prefix(sv, k).subrange(p.len() as int, sections_prefix(sv, k).len() as int)
                    =~= sv[k - 1]);
            }
        }
    }
}

/// Reading back the bytes of a frame gives its timestamps and sections.
pub proof fn lemma_frame_round_trip(start: i64, end: i64, s: Seq<Seq<u8>>)
    requires
        s.len() == 5,
        HEADER_BYTES + 16 + s[0].len() + s[1].len() + s[2].len() + s[3].len() + s[4].len()
            <= u64::MAX,
    ensures
        frame_ok(frame_bytes(start, end, s)),
        le_word(frame_bytes(start, end, s), HEADER_BYTES as int) as i64 == start,
        le_word(frame_bytes(start, end, s), HEADER_BYTES + 8) as i64 == end,
        frame_sections(frame_bytes(start, end, s)) == s,
{
    let b = frame_bytes(start, end, s);
    let ws = frame_words(start, end, s);
    let o = offsets(section_lens(s));
    let tail = sections_prefix(s, 5);
    lemma_words_bytes_len(ws);
    reveal_with_fuel(sections_prefix, 6);
    assert(tail.len() == s[0].len() + s[1].len() + s[2].len() + s[3].len() + s[4].len());
    assert forall|k: int| 0 <= k < 9 implies le_word(b, 8 * k) == #[trigger] ws[k] by {
        lemma_words_bytes_read(ws, tail, k);
    }
    assert(le_word(b, 56int) == ws[7]);
    assert(le_word(b, 64int) == ws[8]);
    assert((start as u64) as i64 == start) by (bit_vector);
    assert((end as u64) as i64 == end) by (bit_vector);
    let h = header_of(b);
    assert forall|k: int| 0 <= k < 7 implies #[trigger] h[k] == o[k] by {
        assert(le_word(b, 8 * k) == ws[k]);
    }
    assert(frame_ok(b));
    lemma_sections_prefix(s, 5);
    assert forall|k: int| 0 <= k < 5 implies #[trigger] frame_sections(b)[k] == s[k] by {
        assert(sections_prefix(s, k as nat).len() + 72 == o[k + 1]);
        assert(sections_prefix(s, (k + 1) as nat).len() + 72 == o[k + 2]);
        assert(b.subrange(o[k + 1], o[k + 2]) =~= tail.subrange(
            sections_prefix(s, k as nat).len() as int,
            sections_prefix(s, (k + 1) as nat).len() as int,
        ));
    }
    assert(frame_sections(b) =~= s);
}

} // verus!
