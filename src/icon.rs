//! Decoded icons, memoized by the icon reference they were requested under.
use vstd::prelude::*;
use crate::text::{chars_of, chars_eq};

verus! {

/// What `image::load_from_memory_with_format` with the built-in PNG decoder,
/// followed by `to_rgba8`, makes of the bytes: width, height and RGBA8 pixels,
/// or nothing where the bytes do not decode as PNG.
pub uninterp spec fn decoded_image(data: Seq<u8>) -> Option<(u32, u32, Seq<u8>)>;

/// Relies on `image::load_from_memory_with_format` with `ImageFormat::Png`,
/// which decodes with the built-in PNG decoder and consults no registered
/// format hooks, and on `DynamicImage::to_rgba8` with
/// `ImageBuffer::into_raw`, which give the pixels as RGBA8: the result depends
/// on the bytes alone, and the RGBA8 buffer holds four bytes per pixel.
#[verifier::external_body]
fn decode_rgba(data: &[u8]) -> (r: Option<(u32, u32, Vec<u8>)>)
    ensures
        match r {
            Some((w, h, px)) => decoded_image(data@) == Some((w, h, px@)) && bitmap_sized(
                (w, h, px@),
            ),
            None => decoded_image(data@) is None,
        },
{
    match image::load_from_memory_with_format(data, image::ImageFormat::Png) {
        Ok(img) => {
            let rgba = img.to_rgba8();
            Some((rgba.width(), rgba.height(), rgba.into_raw()))
        },
        Err(_) => None,
    }
}

/// Four bytes of pixel data for each of the width times height pixels.
pub open spec fn bitmap_sized(b: (u32, u32, Seq<u8>)) -> bool {
    b.2.len() == 4 * (b.0 as int) * (b.1 as int)
}

/// Decoded pixel data: width, height and RGBA8 pixels, row by row. A valid
/// bitmap is `bitmap_sized`.
pub struct Bitmap {
    pub width: u32,
    pub height: u32,
    pub rgba: Vec<u8>,
}

impl View for Bitmap {
    type V = (u32, u32, Seq<u8>);

    open spec fn view(&self) -> Self::V {
        (self.width, self.height, self.rgba@)
    }
}

/// The bitmap stored first under the reference.
pub open spec fn cached_in(entries: Seq<(Seq<char>, (u32, u32, Seq<u8>))>, reference: Seq<char>) -> Option<
    (u32, u32, Seq<u8>),
>
    decreases entries.len(),
{
    if entries.len() == 0 {
        None
    } else if entries[0].0 == reference {
        Some(entries[0].1)
    } else {
        cached_in(entries.drop_first(), reference)
    }
}

/// The cache as its entries and the number of decodes it has made.
pub type IconCacheView = (Seq<(Seq<char>, (u32, u32, Seq<u8>))>, nat);

/// Each reference appears at most once, and every bitmap is sized.
pub open spec fn cache_valid(c: IconCacheView) -> bool {
    &&& forall|i: int, j: int| 0 <= i < j < c.0.len() ==> #[trigger] c.0[i].0 != #[trigger] c.0[j].0
    &&& forall|i: int| 0 <= i < c.0.len() ==> bitmap_sized(#[trigger] c.0[i].1)
}

/// What `resolve` makes of a cache: a cached reference is answered without a
/// decode; otherwise the bytes are decoded once, and a bitmap that comes out is
/// stored. A failed decode stores nothing.
pub open spec fn resolved(c: IconCacheView, reference: Seq<char>, data: Seq<u8>) -> (
    IconCacheView,
    bool,
) {
    match cached_in(c.0, reference) {
        Some(_) => (c, true),
        None => {
            let count = if c.1 < u64::MAX {
                c.1 + 1
            } else {
                c.1
            };
            match decoded_image(data) {
                Some(b) => ((c.0.push((reference, b)), count), true),
                None => ((c.0, count), false),
            }
        },
    }
}

/// Memoized icon bitmaps, keyed by the exact reference string.
pub struct IconCache {
    entries: Vec<(String, Bitmap)>,
    decodes: u64,
}

impl View for IconCache {
    type V = IconCacheView;

    closed spec fn view(&self) -> IconCacheView {
        (self.entries@.map_values(|e: (String, Bitmap)| (e.0@, e.1@)), self.decodes as nat)
    }
}

impl IconCache {
    /// An empty cache that has decoded nothing.
    pub fn new() -> (r: IconCache)
        ensures
            r@ == (Seq::<(Seq<char>, (u32, u32, Seq<u8>))>::empty(), 0nat),
            cache_valid(r@),
    {
        let r = IconCache { entries: Vec::new(), decodes: 0 };
        assert(r@.0 =~= Seq::<(Seq<char>, (u32, u32, Seq<u8>))>::empty());
        r
    }

    /// How many decodes the cache has made (it stops counting at `u64::MAX`).
    pub fn decode_count(&self) -> (r: u64)
        ensures
            r == self@.1,
    {
        self.decodes
    }

    /// The bitmap stored under the reference, if any.
    pub fn cached(&self, reference: &str) -> (r: Option<&Bitmap>)
        requires
            cache_valid(self@),
        ensures
            match r {
                Some(b) => cached_in(self@.0, reference@) == Some(b@) && bitmap_sized(b@),
                None => cached_in(self@.0, reference@) is None,
            },
    {
        let key = chars_of(reference);
        let mut i: usize = 0;
        assert(self@.0.skip(0) =~= self@.0);
        while i < self.entries.len()
            invariant
                i <= self.entries.len(),
                key@ == reference@,
                cache_valid(self@),
                cached_in(self@.0, reference@) == cached_in(self@.0.skip(i as int), reference@),
            decreases self.entries.len() - i,
        {
            let ghost rest = self@.0.skip(i as int);
            assert(rest.drop_first() =~= self@.0.skip(i + 1));
            assert(rest[0] == (self.entries@[i as int].0@, self.entries@[i as int].1@));
            let k = chars_of(self.entries[i].0.as_str());
            if chars_eq(&k, &key) {
                assert(bitmap_sized(self@.0[i as int].1));
                return Some(&self.entries[i].1);
            }
            i = i + 1;
        }
        assert(self@.0.skip(i as int).len() == 0);
        None
    }

    /// Answers a request for the reference: from the cache where it is there,
    /// else by decoding `data` (the bytes of the file it names) and storing the
    /// bitmap on success. Returns whether the reference now has a bitmap.
    pub fn resolve(&mut self, reference: &str, data: &[u8]) -> (r: bool)
        requires
            cache_valid(old(self)@),
        ensures
            (final(self)@, r) == resolved(old(self)@, reference@, data@),
            cache_valid(final(self)@),
    {
        if self.cached(reference).is_some() {
            return true;
        }
        if self.decodes < u64::MAX {
            self.decodes = self.decodes + 1;
        }
        let ghost pre = self.entries@;
        match decode_rgba(data) {
            Some((width, height, rgba)) => {
                let b = Bitmap { width, height, rgba };
                let name = String::from_str(reference);
                self.entries.push((name, b));
                assert(self@.0 =~= old(self)@.0.push((reference@, b@)));
                proof {
                    lemma_absent_when_not_cached(old(self)@.0, reference@);
                    let es = self@.0;
                    let n = old(self)@.0.len();
                    assert forall|i: int, j: int| 0 <= i < j < es.len() implies #[trigger] es[i].0
                        != #[trigger] es[j].0 by {
                        if j == n {
                            assert(old(self)@.0[i].0 != reference@);
                        } else {
                            assert(es[i] == old(self)@.0[i] && es[j] == old(self)@.0[j]);
                        }
                    }
                    assert forall|i: int| 0 <= i < es.len() implies bitmap_sized(
                        #[trigger] es[i].1,
                    ) by {
                        if i < n {
                            assert(es[i] == old(self)@.0[i]);
                        }
                    }
                }
                true
            },
            None => false,
        }
    }
}

proof fn lemma_absent_when_not_cached(
    es: Seq<(Seq<char>, (u32, u32, Seq<u8>))>,
    reference: Seq<char>,
)
    requires
        cached_in(es, reference) is None,
    ensures
        forall|i: int| 0 <= i < es.len() ==> (#[trigger] es[i]).0 != reference,
    decreases es.len(),
{
    if es.len() > 0 {
        lemma_absent_when_not_cached(es.drop_first(), reference);
        assert forall|i: int| 0 <= i < es.len() implies (#[trigger] es[i]).0 != reference by {
            if i > 0 {
                assert(es[i] == es.drop_first()[i - 1]);
            }
        }
    }
}

proof fn lemma_cached_after_push(
    es: Seq<(Seq<char>, (u32, u32, Seq<u8>))>,
    reference: Seq<char>,
    b: (u32, u32, Seq<u8>),
)
    requires
        cached_in(es, reference) is None,
    ensures
        cached_in(es.push((reference, b)), reference) == Some(b),
    decreases es.len(),
{
    if es.len() > 0 {
        assert(es.push((reference, b)).drop_first() =~= es.drop_first().push((reference, b)));
        lemma_cached_after_push(es.drop_first(), reference, b);
    }
}

/// Requesting the same reference twice decodes at most once, as long as the
/// first request ends with a bitmap: the second request finds it cached and
/// leaves the cache as it was.
pub proof fn lemma_second_request_no_decode(
    c: IconCacheView,
    reference: Seq<char>,
    first: Seq<u8>,
    second: Seq<u8>,
)
    requires
        resolved(c, reference, first).1,
    ensures
        resolved(resolved(c, reference, first).0, reference, second) == (
            resolved(c, reference, first).0,
            true,
        ),
        resolved(c, reference, first).0.1 <= c.1 + 1,
{
    if cached_in(c.0, reference) is None {
        lemma_cached_after_push(c.0, reference, decoded_image(first)->0);
    }
}

} // verus!
