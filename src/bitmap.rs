//! Posting lists: sets of series ids held in croaring's roaring bitmaps.
use vstd::prelude::*;
use croaring::Bitmap;

verus! {

#[verifier::external_type_specification]
#[verifier::external_body]
pub struct ExBitmap(Bitmap);

/// The ids that a bitmap holds.
pub uninterp spec fn bitmap_items(b: Bitmap) -> Set<u32>;

/// Relies on `croaring::Bitmap::new`: a new bitmap is empty.
#[verifier::external_body]
pub fn bitmap_new() -> (r: Bitmap)
    ensures
        bitmap_items(r) == Set::<u32>::empty(),
{
    Bitmap::new()
}

/// Relies on `croaring::Bitmap::add`: the id is added to the set.
#[verifier::external_body]
pub fn bitmap_add(b: &mut Bitmap, x: u32)
    ensures
        bitmap_items(*final(b)) == bitmap_items(*old(b)).insert(x),
{
    b.add(x)
}

/// Relies on `croaring::Bitmap::or_inplace`: the bitmap becomes the union.
#[verifier::external_body]
pub fn bitmap_or_inplace(b: &mut Bitmap, other: &Bitmap)
    ensures
        bitmap_items(*final(b)) == bitmap_items(*old(b)).union(bitmap_items(*other)),
{
    b.or_inplace(other)
}

/// Relies on `croaring::Bitmap::and_inplace`: the bitmap becomes the
/// intersection.
#[verifier::external_body]
pub fn bitmap_and_inplace(b: &mut Bitmap, other: &Bitmap)
    ensures
        bitmap_items(*final(b)) == bitmap_items(*old(b)).intersect(bitmap_items(*other)),
{
    b.and_inplace(other)
}

/// Relies on `croaring::Bitmap::to_vec`: every id of the set, ascending.
#[verifier::external_body]
pub fn bitmap_to_vec(b: &Bitmap) -> (r: Vec<u32>)
    ensures
        r@.to_set() == bitmap_items(*b),
        forall|i: int, j: int| 0 <= i < j < r@.len() ==> r@[i] < r@[j],
{
    b.to_vec()
}

/// Relies on `Clone for croaring::Bitmap`: a copy holds the same ids.
#[verifier::external_body]
pub fn bitmap_clone(b: &Bitmap) -> (r: Bitmap)
    ensures
        bitmap_items(r) == bitmap_items(*b),
{
    b.clone()
}

/// Relies on `PartialEq for croaring::Bitmap`: equal exactly when the two
/// bitmaps hold the same ids.
#[verifier::external_body]
pub fn bitmap_eq(a: &Bitmap, b: &Bitmap) -> (r: bool)
    ensures
        r == (bitmap_items(*a) == bitmap_items(*b)),
{
    a == b
}

/// The ids of the bitmap that the bytes hold in the portable format, if any.
pub uninterp spec fn roaring_read(b: Seq<u8>) -> Option<Set<u32>>;

/// Relies on `croaring::Bitmap::serialize` in the portable format, which
/// `try_deserialize` reads back as the same ids.
#[verifier::external_body]
pub fn bitmap_serialize(b: &Bitmap) -> (r: Vec<u8>)
    ensures
        roaring_read(r@) == Some(bitmap_items(*b)),
{
    b.serialize::<croaring::Portable>()
}

/// Relies on `croaring::Bitmap::try_deserialize` in the portable format:
/// `None` where the bytes hold no valid bitmap.
#[verifier::external_body]
pub fn bitmap_deserialize(bytes: &Vec<u8>) -> (r: Option<Bitmap>)
    ensures
        r matches Some(x) ==> roaring_read(bytes@) == Some(bitmap_items(x)),
        r is None ==> roaring_read(bytes@) is None,
{
    Bitmap::try_deserialize::<croaring::Portable>(bytes.as_slice())
}

/// A bitmap that takes written bytes as ids.
pub struct BitmapWrapper {
    pub bitmap: Bitmap,
}

impl BitmapWrapper {
    /// An empty bitmap.
    pub fn new() -> (r: BitmapWrapper)
        ensures
            bitmap_items(r.bitmap) == Set::<u32>::empty(),
    {
        BitmapWrapper { bitmap: bitmap_new() }
    }

    /// Adds each byte of `buf` as an id and reports every byte taken.
    pub fn write(&mut self, buf: &[u8]) -> (n: usize)
        ensures
            n == buf@.len(),
            bitmap_items(final(self).bitmap) == bitmap_items(old(self).bitmap).union(
                buf@.map_values(|b: u8| b as u32).to_set(),
            ),
    {
        let mut i: usize = 0;
        while i < buf.len()
            invariant
                i <= buf@.len(),
                bitmap_items(self.bitmap) == bitmap_items(old(self).bitmap).union(
                    buf@.take(i as int).map_values(|b: u8| b as u32).to_set(),
                ),
            decreases buf.len() - i,
        {
            bitmap_add(&mut self.bitmap, buf[i] as u32);
            proof {
                let prev = buf@.take(i as int).map_values(|b: u8| b as u32);
                assert(buf@.take(i + 1).map_values(|b: u8| b as u32) =~= prev.push(
                    buf@[i as int] as u32,
                ));
                prev.lemma_push_to_set_commute(buf@[i as int] as u32);
                assert(bitmap_items(self.bitmap) =~= bitmap_items(old(self).bitmap).union(
                    buf@.take(i + 1).map_values(|b: u8| b as u32).to_set(),
                ));
            }
            i = i + 1;
        }
        assert(buf@.take(buf@.len() as int) =~= buf@);
        buf.len()
    }

    /// Nothing is buffered, so there is nothing to flush.
    pub fn flush(&mut self)
        ensures
            *final(self) == *old(self),
    {
    }
}

} // verus!
