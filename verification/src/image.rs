//! The dimension-generic image: a contiguous buffer of one scalar type, in
//! stride order (the first axis varies fastest), with its conversion to and
//! from the on-disk record.
//!
//! Decoding fails unless the record's dimension, pixel type and (raw)
//! encoding fit the image's static type; encoding always produces a raw,
//! little-endian record of the newest revision and synthesizes the required
//! header fields. Decoding the record an image encodes recovers the pixel
//! buffer exactly — `lemma_image_round_trip`.

use vstd::prelude::*;

verus! {

use crate::codec::{word_of, word_bytes, lemma_word_bytes_round_trip};
use crate::header::{
    Version,
    Field,
    FieldView,
    KeyValueView,
    PixelType,
    Encoding,
    Endian,
    Nrrd,
    NrrdView,
    size_spec,
    prod_usize,
    lemma_prod_agree,
};
use crate::pixel::PixelValue;
use crate::reader::{read_nrrd, ReadNrrdErr};
use crate::text::{dec_bytes, dec_exec, join_dec, join_dec_exec};
use vstd::string::StringSliceAdditionalSpecFns;
use vstd::arithmetic::mul::{lemma_mul_inequality, lemma_mul_nonnegative};

/// Why a record could not become a typed image: its declared dimension does
/// not fit the image's (or an axis size is no size at all), its pixel type is
/// not the image's scalar type, the underlying bytes do not parse, or its
/// payload encoding is anything but raw.
#[derive(Debug)]
pub enum ImageFromNrrdErr {
    DimensionsDoNotMatch,
    PixelTypesDoNotMatch,
    CannotReadNrrd(ReadNrrdErr),
    UnsupportedEncoding,
}

/// A `D`-dimensional image of pixels of type `T`: a contiguous buffer of
/// exactly `product(sizes)` elements, the first axis varying fastest.
pub struct Image<T: PixelValue, const D: usize> {
    pub buffer: Vec<T>,
    pub sizes: [usize; D],
}

/// All products of nonnegative sizes are nonnegative.
pub proof fn lemma_prod_usize_nonneg(s: Seq<usize>)
    ensures
        prod_usize(s) >= 0,
    decreases s.len(),
{
    if s.len() > 0 {
        lemma_prod_usize_nonneg(s.drop_last());
        lemma_mul_inequality(0, prod_usize(s.drop_last()), s.last() as int);
    }
}

/// With every axis size at least one, a prefix product never exceeds the
/// whole product.
pub proof fn lemma_prod_usize_prefix(s: Seq<usize>, i: int)
    requires
        0 <= i <= s.len(),
        forall|k: int| 0 <= k < s.len() ==> (#[trigger] s[k]) >= 1,
    ensures
        prod_usize(s.take(i)) >= 1,
        prod_usize(s.take(i)) <= prod_usize(s),
    decreases s.len() - i,
{
    if i == s.len() {
        assert(s.take(i) =~= s);
        lemma_prefix_positive(s, i);
    } else {
        lemma_prod_usize_prefix(s, i + 1);
        lemma_prefix_positive(s, i);
        assert(s.take(i + 1).drop_last() =~= s.take(i));
        assert(prod_usize(s.take(i + 1)) == prod_usize(s.take(i)) * s[i]);
        lemma_mul_inequality(1, s[i] as int, prod_usize(s.take(i)));
        assert(prod_usize(s.take(i)) * 1 == prod_usize(s.take(i))) by (nonlinear_arith);
        assert(s[i] * prod_usize(s.take(i)) == prod_usize(s.take(i)) * s[i]) by (nonlinear_arith);
    }
}

proof fn lemma_prefix_positive(s: Seq<usize>, i: int)
    requires
        0 <= i <= s.len(),
        forall|k: int| 0 <= k < s.len() ==> (#[trigger] s[k]) >= 1,
    ensures
        prod_usize(s.take(i)) >= 1,
    decreases i,
{
    if i > 0 {
        lemma_prefix_positive(s, i - 1);
        assert(s.take(i).drop_last() =~= s.take(i - 1));
        assert(prod_usize(s.take(i)) == prod_usize(s.take(i - 1)) * s[i - 1]);
        lemma_mul_inequality(1, prod_usize(s.take(i - 1)), s[i - 1] as int);
        assert(prod_usize(s.take(i - 1)) * s[i - 1] == s[i - 1] * prod_usize(s.take(i
            - 1))) by (nonlinear_arith);
    }
}

/// The flat position of a coordinate tuple under the stride convention: the
/// stride of axis `i` is the product of the sizes of the axes before it.
pub open spec fn offset_spec(index: Seq<usize>, sizes: Seq<usize>, d: int) -> int
    decreases d,
{
    if d <= 0 {
        0
    } else {
        offset_spec(index, sizes, d - 1) + index[d - 1] * prod_usize(sizes.take(d - 1))
    }
}

/// A valid coordinate's offset lands inside the prefix product: the heart of
/// in-bounds indexing.
pub proof fn lemma_offset_in_bounds(index: Seq<usize>, sizes: Seq<usize>, d: int)
    requires
        0 <= d <= sizes.len(),
        index.len() == sizes.len(),
        forall|k: int| 0 <= k < sizes.len() ==> (#[trigger] index[k]) < sizes[k],
    ensures
        0 <= offset_spec(index, sizes, d) < prod_usize(sizes.take(d)) + 1,
        offset_spec(index, sizes, d) <= prod_usize(sizes.take(d)) - 1,
    decreases d,
{
    assert(forall|k: int| 0 <= k < sizes.len() ==> (#[trigger] sizes[k]) > index[k]);
    if d == 0 {
        assert(sizes.take(0) =~= Seq::<usize>::empty());
    } else {
        lemma_offset_in_bounds(index, sizes, d - 1);
        lemma_prefix_positive(sizes, d - 1);
        let st = prod_usize(sizes.take(d - 1));
        assert(sizes.take(d).drop_last() =~= sizes.take(d - 1));
        assert(prod_usize(sizes.take(d)) == st * sizes[d - 1]);
        assert(index[d - 1] * st <= (sizes[d - 1] - 1) * st) by (nonlinear_arith)
            requires
                index[d - 1] < sizes[d - 1],
                st >= 1,
        ;
        assert((sizes[d - 1] - 1) * st == st * sizes[d - 1] - st) by (nonlinear_arith);
    }
}

impl<T: PixelValue, const D: usize> Image<T, D> {
    /// The image invariant: the buffer holds exactly one element per pixel of
    /// the shape.
    pub open spec fn wf(self) -> bool {
        self.buffer@.len() == prod_usize(self.sizes@)
    }

    /// Allocates an image of the given shape with every pixel set to
    /// `background`.
    pub fn new(background: T, sizes: [usize; D]) -> (r: Image<T, D>)
        requires
            prod_usize(sizes@) <= usize::MAX,
        ensures
            r.wf(),
            r.sizes@ == sizes@,
            r.buffer@.len() == prod_usize(sizes@),
            forall|i: int| 0 <= i < r.buffer@.len() ==> r.buffer@[i] == background,
    {
        let count = pixels_count_of(&sizes);
        let mut buffer: Vec<T> = Vec::new();
        let mut i: usize = 0;
        while i < count
            invariant
                i <= count,
                buffer@.len() == i,
                forall|j: int| 0 <= j < i ==> buffer@[j] == background,
            decreases count - i,
        {
            buffer.push(background);
            i = i + 1;
        }
        Image { buffer, sizes }
    }

    /// The number of pixels the shape holds.
    pub fn pixels_count(&self) -> (r: usize)
        requires
            self.wf(),
        ensures
            r as int == prod_usize(self.sizes@),
    {
        self.buffer.len()
    }

    /// The pixel at a coordinate tuple, every coordinate within its axis.
    pub fn get(&self, index: &[usize; D]) -> (r: &T)
        requires
            self.wf(),
            forall|k: int| 0 <= k < D ==> (#[trigger] index@[k]) < self.sizes@[k],
        ensures
            *r == self.buffer@[offset_spec(index@, self.sizes@, D as int)],
    {
        let off = self.offset(index);
        &self.buffer[off]
    }

    /// Replaces the pixel at a coordinate tuple; every other pixel and the
    /// shape stay as they were.
    pub fn set(&mut self, index: &[usize; D], value: T)
        requires
            old(self).wf(),
            forall|k: int| 0 <= k < D ==> (#[trigger] index@[k]) < old(self).sizes@[k],
        ensures
            final(self).wf(),
            final(self).sizes@ == old(self).sizes@,
            final(self).buffer@ == old(self).buffer@.update(
                offset_spec(index@, old(self).sizes@, D as int),
                value,
            ),
    {
        let off = self.offset(index);
        self.buffer[off] = value;
    }

    /// The pixels in stride order.
    pub fn pixels(&self) -> (r: &[T])
        ensures
            r@ == self.buffer@,
    {
        self.buffer.as_slice()
    }

    /// The per-axis sizes.
    pub fn sizes(&self) -> (r: &[usize; D])
        ensures
            r@ == self.sizes@,
    {
        &self.sizes
    }

    /// The flat offset of a coordinate tuple, first axis varying fastest.
    fn offset(&self, index: &[usize; D]) -> (r: usize)
        requires
            self.wf(),
            forall|k: int| 0 <= k < D ==> (#[trigger] index@[k]) < self.sizes@[k],
        ensures
            r as int == offset_spec(index@, self.sizes@, D as int),
            r < self.buffer@.len(),
    {
        let n = self.buffer.len();
        proof {
            lemma_offset_in_bounds(index@, self.sizes@, D as int);
            assert(self.sizes@.take(D as int) =~= self.sizes@);
            assert(forall|k: int| 0 <= k < D ==> (#[trigger] self.sizes@[k]) > index@[k]);
        }
        let mut off: usize = 0;
        let mut stride: usize = 1;
        let mut i: usize = 0;
        while i < D
            invariant
                i <= D,
                self.wf(),
                n == self.buffer@.len(),
                forall|k: int| 0 <= k < D ==> (#[trigger] self.sizes@[k]) > index@[k],
                off as int == offset_spec(index@, self.sizes@, i as int),
                stride as int == prod_usize(self.sizes@.take(i as int)),
            decreases D - i,
        {
            proof {
                lemma_offset_in_bounds(index@, self.sizes@, i + 1);
                lemma_offset_in_bounds(index@, self.sizes@, i as int);
                lemma_prod_usize_prefix(self.sizes@, i + 1);
                lemma_prod_usize_prefix(self.sizes@, i as int);
                assert(self.sizes@.take(i + 1).drop_last() =~= self.sizes@.take(i as int));
                assert(prod_usize(self.sizes@.take(i + 1)) == prod_usize(
                    self.sizes@.take(i as int),
                ) * self.sizes@[i as int]);
                lemma_mul_nonnegative(index@[i as int] as int, stride as int);
                assert(off + index@[i as int] * stride == offset_spec(index@, self.sizes@, i + 1));
            }
            off = off + index[i] * stride;
            stride = stride * self.sizes[i];
            i = i + 1;
        }
        proof {
            assert(self.sizes@.take(D as int) =~= self.sizes@);
        }
        off
    }
}

/// The number of pixels a shape holds.
fn pixels_count_of<const D: usize>(sizes: &[usize; D]) -> (r: usize)
    requires
        prod_usize(sizes@) <= usize::MAX,
    ensures
        r as int == prod_usize(sizes@),
{
    let mut k: usize = 0;
    while k < D
        invariant
            k <= D,
            forall|j: int| 0 <= j < k ==> (#[trigger] sizes@[j]) >= 1,
        decreases D - k,
    {
        if sizes[k] == 0 {
            proof {
                lemma_prod_zero(sizes@, k as int);
            }
            return 0;
        }
        k = k + 1;
    }
    let mut acc: usize = 1;
    let mut i: usize = 0;
    while i < D
        invariant
            i <= D,
            prod_usize(sizes@) <= usize::MAX,
            forall|j: int| 0 <= j < D ==> (#[trigger] sizes@[j]) >= 1,
            acc as int == prod_usize(sizes@.take(i as int)),
        decreases D - i,
    {
        proof {
            lemma_prod_usize_prefix(sizes@, i + 1);
            assert(sizes@.take(i + 1).drop_last() =~= sizes@.take(i as int));
            assert(prod_usize(sizes@.take(i + 1)) == prod_usize(sizes@.take(i as int))
                * sizes@[i as int]);
        }
        acc = acc * sizes[i];
        i = i + 1;
    }
    proof {
        assert(sizes@.take(D as int) =~= sizes@);
    }
    acc
}

/// Exactly which error reconstruction gives, for an image of dimension `d`
/// and pixel type `pt`: a dimension mismatch (or an axis size below zero,
/// which no shape of machine sizes can hold), a pixel type mismatch, or any
/// encoding but raw — judged in that order.
pub open spec fn decode_err_spec(nv: NrrdView, d: int, pt: PixelType, e: ImageFromNrrdErr) -> bool {
    match e {
        ImageFromNrrdErr::DimensionsDoNotMatch => nv.dimension != d || (nv.pixel_type == pt
            && nv.encoding is Raw && exists|k: int|
            0 <= k < nv.sizes.len() && nv.sizes[k] < 0),
        ImageFromNrrdErr::PixelTypesDoNotMatch => nv.dimension == d && nv.pixel_type != pt,
        ImageFromNrrdErr::UnsupportedEncoding => nv.dimension == d && nv.pixel_type == pt && !(
        nv.encoding is Raw),
        ImageFromNrrdErr::CannotReadNrrd(_) => false,
    }
}

/// What a successfully reconstructed image holds: the record's shape, and in
/// each pixel the word decoded from its stride-ordered window of the payload
/// under the record's byte order.
pub open spec fn decode_ok_spec<T: PixelValue, const D: usize>(
    nv: NrrdView,
    img: Image<T, D>,
) -> bool {
    let w = size_spec(T::pixel_type_spec());
    &&& nv.dimension == D as int
    &&& nv.pixel_type == T::pixel_type_spec()
    &&& nv.encoding is Raw
    &&& img.wf()
    &&& forall|k: int| 0 <= k < D ==> (#[trigger] img.sizes@[k]) as int == nv.sizes[k] as int
    &&& img.buffer@.len() == prod_usize(img.sizes@)
    &&& forall|i: int|
        0 <= i < img.buffer@.len() ==> (#[trigger] img.buffer@[i]).word() == word_of(
            nv.buffer.subrange(i * w, (i + 1) * w),
            nv.endian,
        )
}

/// What the record an image encodes holds: the newest revision, raw encoding,
/// little byte order, the image's shape, an empty key/value set, the five
/// synthesized required fields, and in the payload each pixel's canonical
/// bytes at its stride-ordered window.
pub open spec fn encode_spec<T: PixelValue, const D: usize>(
    img: Image<T, D>,
    nv: NrrdView,
) -> bool {
    let w = size_spec(T::pixel_type_spec());
    &&& nv.version == Version::Nrrd5
    &&& nv.dimension == D as int
    &&& nv.pixel_type == T::pixel_type_spec()
    &&& nv.encoding is Raw
    &&& nv.endian == Endian::Little
    &&& nv.key_values == Seq::<KeyValueView>::empty()
    &&& nv.sizes.len() == D
    &&& forall|k: int| 0 <= k < D ==> (#[trigger] nv.sizes[k]) as int == img.sizes@[k] as int
    &&& nv.buffer.len() == img.buffer@.len() * w
    &&& forall|i: int|
        0 <= i < img.buffer@.len() ==> nv.buffer.subrange(i * w, (i + 1) * w) == word_bytes(
            (#[trigger] img.buffer@[i]).word(),
            w as nat,
            Endian::Little,
        )
    &&& nv.fields == seq![
        FieldView {
            identifier: "type".spec_bytes(),
            descriptor: crate::header::name_spec(T::pixel_type_spec()),
        },
        FieldView { identifier: "dimension".spec_bytes(), descriptor: dec_bytes(D as int) },
        FieldView { identifier: "sizes".spec_bytes(), descriptor: join_dec(img.sizes@) },
        FieldView { identifier: "endian".spec_bytes(), descriptor: "little".spec_bytes() },
        FieldView { identifier: "encoding".spec_bytes(), descriptor: "raw".spec_bytes() },
    ]
}

/// Sequences equal element by element have equal products.
proof fn lemma_prod_usize_agree(a: Seq<usize>, b: Seq<usize>)
    requires
        a.len() == b.len(),
        forall|k: int| 0 <= k < a.len() ==> a[k] as int == (#[trigger] b[k]) as int,
    ensures
        prod_usize(a) == prod_usize(b),
    decreases a.len(),
{
    if a.len() > 0 {
        assert(forall|k: int|
            0 <= k < a.len() - 1 ==> a.drop_last()[k] as int == (#[trigger] b.drop_last()[
                k
            ]) as int);
        lemma_prod_usize_agree(a.drop_last(), b.drop_last());
    }
}

/// The round-trip law of the image conversion: decoding the record produced
/// by encoding an image of the same type and dimension reproduces the pixel
/// buffer and the shape exactly, for every representable pixel value.
pub proof fn lemma_image_round_trip<T: PixelValue, const D: usize>(
    orig: Image<T, D>,
    enc: NrrdView,
    dec: Image<T, D>,
)
    requires
        orig.wf(),
        encode_spec(orig, enc),
        decode_ok_spec(enc, dec),
    ensures
        dec.buffer@ == orig.buffer@,
        dec.sizes@ == orig.sizes@,
{
    let w = size_spec(T::pixel_type_spec());
    assert(forall|k: int| 0 <= k < D ==> (#[trigger] dec.sizes@[k]) == orig.sizes@[k]);
    assert(dec.sizes@ =~= orig.sizes@);
    lemma_prod_usize_agree(dec.sizes@, orig.sizes@);
    assert(dec.buffer@.len() == orig.buffer@.len());
    assert forall|i: int| 0 <= i < orig.buffer@.len() implies (#[trigger] dec.buffer@[i])
        == orig.buffer@[i] by {
        T::lemma_word(orig.buffer@[i], dec.buffer@[i]);
        lemma_word_bytes_round_trip(orig.buffer@[i].word(), w as nat, Endian::Little);
    }
    assert(dec.buffer@ =~= orig.buffer@);
}

impl<T: PixelValue, const D: usize> Image<T, D> {
    /// Reconstructs a typed image from a record: fails unless the record's
    /// dimension is `D` (with no negative axis size), its pixel type is `T`'s
    /// canonical tag, and its encoding is raw; on success decodes each pixel
    /// from its stride-ordered window of the payload under the record's byte
    /// order.
    pub fn try_from_nrrd(nrrd: &Nrrd) -> (r: Result<Image<T, D>, ImageFromNrrdErr>)
        requires
            nrrd@.wf(),
        ensures
            match r {
                Ok(img) => decode_ok_spec(nrrd@, img),
                Err(e) => decode_err_spec(nrrd@, D as int, T::pixel_type_spec(), e),
            },
    {
        let dim = nrrd.dimension();
        if dim < 0 || (dim as usize) != D {
            return Err(ImageFromNrrdErr::DimensionsDoNotMatch);
        }
        if T::pixel_type() != nrrd.pixel_type() {
            return Err(ImageFromNrrdErr::PixelTypesDoNotMatch);
        }
        match nrrd.encoding() {
            Encoding::Raw => {},
            _ => {
                return Err(ImageFromNrrdErr::UnsupportedEncoding);
            },
        }
        let mut sizes: [usize; D] = [0; D];
        let mut k: usize = 0;
        while k < D
            invariant
                k <= D,
                nrrd@.sizes.len() == D,
                nrrd@.dimension == D as int,
                nrrd@.pixel_type == T::pixel_type_spec(),
                nrrd@.encoding is Raw,
                forall|j: int| 0 <= j < k ==> (#[trigger] sizes@[j]) as int == nrrd@.sizes[j] as int,
            decreases D - k,
        {
            let s = nrrd.sizes()[k];
            if s < 0 {
                return Err(ImageFromNrrdErr::DimensionsDoNotMatch);
            }
            sizes[k] = s as usize;
            k = k + 1;
        }
        let width = T::pixel_type().size();
        let len = nrrd.buffer().len();
        proof {
            lemma_prod_agree(nrrd@.sizes, sizes@);
            lemma_prod_usize_nonneg(sizes@);
            assert(prod_usize(sizes@) <= prod_usize(sizes@) * width) by (nonlinear_arith)
                requires
                    prod_usize(sizes@) >= 0,
                    width >= 1,
            ;
        }
        let count = pixels_count_of(&sizes);
        let ghost w = size_spec(T::pixel_type_spec());
        let mut buffer: Vec<T> = Vec::new();
        let mut i: usize = 0;
        while i < count
            invariant
                i <= count,
                width as int == w,
                w == size_spec(T::pixel_type_spec()),
                w >= 1,
                len == nrrd@.buffer.len(),
                count * w == len as int,
                buffer@.len() == i,
                forall|j: int|
                    0 <= j < i ==> (#[trigger] buffer@[j]).word() == word_of(
                        nrrd@.buffer.subrange(j * w, (j + 1) * w),
                        nrrd@.endian,
                    ),
            decreases count - i,
        {
            proof {
                lemma_mul_inequality(i + 1, count as int, w);
                lemma_mul_nonnegative(i as int, w);
                assert((i + 1) * w == i * w + w) by (nonlinear_arith);
            }
            let p = T::from_bytes(nrrd.buffer().as_slice(), i * width, nrrd.endian());
            buffer.push(p);
            i = i + 1;
        }
        let img = Image { buffer, sizes };
        Ok(img)
    }

    /// Encodes the image as a record: raw encoding, little byte order, the
    /// newest revision, the five required fields synthesized from the image's
    /// type and shape, and each pixel's bytes at its stride-ordered window.
    pub fn to_nrrd(&self) -> (r: Nrrd)
        requires
            self.wf(),
            1 <= D,
            D as int <= i32::MAX,
            forall|k: int| 0 <= k < D ==> (#[trigger] self.sizes@[k]) <= i32::MAX,
            prod_usize(self.sizes@) * size_spec(T::pixel_type_spec()) <= usize::MAX,
        ensures
            r@.wf(),
            encode_spec(*self, r@),
    {
        let width = T::pixel_type().size();
        let ghost w = size_spec(T::pixel_type_spec());
        let count = self.pixels_count();
        let mut buffer: Vec<u8> = Vec::new();
        let mut i: usize = 0;
        proof {
            lemma_prod_usize_nonneg(self.sizes@);
        }
        while i < count
            invariant
                i <= count,
                width as int == w,
                w == size_spec(T::pixel_type_spec()),
                w >= 1,
                count == self.buffer@.len(),
                count * w <= usize::MAX,
                buffer@.len() == i * w,
                forall|j: int|
                    0 <= j < i ==> buffer@.subrange(j * w, (j + 1) * w) == word_bytes(
                        (#[trigger] self.buffer@[j]).word(),
                        w as nat,
                        Endian::Little,
                    ),
            decreases count - i,
        {
            let ghost before = buffer@;
            proof {
                lemma_mul_inequality(i + 1, count as int, w);
                lemma_mul_nonnegative(i as int, w);
                assert((i + 1) * w == i * w + w) by (nonlinear_arith);
            }
            let pix = self.buffer[i];
            pix.to_bytes(&mut buffer, Endian::Little);
            proof {
                lemma_word_bytes_len(self.buffer@[i as int], w);
                assert(buffer@ == before + word_bytes(
                    self.buffer@[i as int].word(),
                    w as nat,
                    Endian::Little,
                ));
                assert(buffer@.subrange(i * w, (i + 1) * w) =~= word_bytes(
                    self.buffer@[i as int].word(),
                    w as nat,
                    Endian::Little,
                ));
                assert forall|j: int| 0 <= j < i implies #[trigger] buffer@.subrange(
                    j * w,
                    (j + 1) * w,
                ) == before.subrange(j * w, (j + 1) * w) by {
                    lemma_mul_inequality(j + 1, i as int, w);
                    lemma_mul_nonnegative(j, w);
                    assert((j + 1) * w == j * w + w) by (nonlinear_arith);
                    assert(buffer@.subrange(j * w, (j + 1) * w) =~= before.subrange(
                        j * w,
                        (j + 1) * w,
                    ));
                }
            }
            i = i + 1;
        }
        let mut sizes_i32: Vec<i32> = Vec::new();
        let mut k: usize = 0;
        while k < D
            invariant
                k <= D,
                forall|j: int| 0 <= j < D ==> (#[trigger] self.sizes@[j]) <= i32::MAX,
                sizes_i32@.len() == k,
                forall|j: int|
                    0 <= j < k ==> (#[trigger] sizes_i32@[j]) as int == self.sizes@[j] as int,
            decreases D - k,
        {
            sizes_i32.push(self.sizes[k] as i32);
            k = k + 1;
        }
        let mut fields: Vec<Field> = Vec::new();
        fields.push(
            Field { identifier: str_bytes("type"), descriptor: T::pixel_type().canonical_name() },
        );
        fields.push(
            Field { identifier: str_bytes("dimension"), descriptor: dec_exec(D as u64) },
        );
        fields.push(
            Field { identifier: str_bytes("sizes"), descriptor: join_dec_exec(&self.sizes) },
        );
        fields.push(
            Field { identifier: str_bytes("endian"), descriptor: str_bytes("little") },
        );
        fields.push(
            Field { identifier: str_bytes("encoding"), descriptor: str_bytes("raw") },
        );
        let nrrd = Nrrd {
            version: Version::Nrrd5,
            fields,
            key_values: Vec::new(),
            dimension: D as i32,
            sizes: sizes_i32,
            pixel_type: T::pixel_type(),
            encoding: Encoding::Raw,
            endian: Endian::Little,
            buffer,
        };
        proof {
            lemma_prod_agree(nrrd@.sizes, self.sizes@);
            lemma_distinct_required_idents();
            assert(nrrd@.key_values =~= Seq::<KeyValueView>::empty());
            assert(nrrd@.fields =~= seq![
                FieldView {
                    identifier: "type".spec_bytes(),
                    descriptor: crate::header::name_spec(T::pixel_type_spec()),
                },
                FieldView {
                    identifier: "dimension".spec_bytes(),
                    descriptor: dec_bytes(D as int),
                },
                FieldView { identifier: "sizes".spec_bytes(), descriptor: join_dec(self.sizes@) },
                FieldView { identifier: "endian".spec_bytes(), descriptor: "little".spec_bytes() },
                FieldView { identifier: "encoding".spec_bytes(), descriptor: "raw".spec_bytes() },
            ]);
        }
        nrrd
    }

    /// Parses a byte stream and reconstructs a typed image from the record it
    /// holds.
    pub fn try_read_nrrd(bytes: &[u8]) -> (r: Result<Image<T, D>, ImageFromNrrdErr>)
        ensures
            match r {
                Ok(img) => crate::reader::spec_read_nrrd(bytes@) matches Ok(nv) && decode_ok_spec(
                    nv,
                    img,
                ),
                Err(ImageFromNrrdErr::CannotReadNrrd(e)) => crate::reader::spec_read_nrrd(bytes@)
                    == Err::<NrrdView, crate::reader::ErrView>(e@),
                Err(e) => crate::reader::spec_read_nrrd(bytes@) matches Ok(nv) && decode_err_spec(
                    nv,
                    D as int,
                    T::pixel_type_spec(),
                    e,
                ),
            },
    {
        let nrrd = match read_nrrd(bytes) {
            Ok(n) => n,
            Err(e) => {
                return Err(ImageFromNrrdErr::CannotReadNrrd(e));
            },
        };
        Self::try_from_nrrd(&nrrd)
    }
}

/// A pixel's canonical encoding is exactly its width long.
proof fn lemma_word_bytes_len<T: PixelValue>(v: T, w: int)
    requires
        w == size_spec(T::pixel_type_spec()),
    ensures
        word_bytes(v.word(), w as nat, Endian::Little).len() == w,
{
    T::lemma_word(v, v);
    lemma_word_bytes_round_trip(v.word(), w as nat, Endian::Little);
}

/// The five synthesized field identifiers are pairwise distinct: their
/// lengths already differ.
proof fn lemma_distinct_required_idents()
    ensures
        "type".spec_bytes().len() == 4,
        "dimension".spec_bytes().len() == 9,
        "sizes".spec_bytes().len() == 5,
        "endian".spec_bytes().len() == 6,
        "encoding".spec_bytes().len() == 8,
{
    reveal_strlit("type");
    reveal_strlit("dimension");
    reveal_strlit("sizes");
    reveal_strlit("endian");
    reveal_strlit("encoding");
    vstd::string::is_ascii_spec_bytes("type");
    vstd::string::is_ascii_spec_bytes("dimension");
    vstd::string::is_ascii_spec_bytes("sizes");
    vstd::string::is_ascii_spec_bytes("endian");
    vstd::string::is_ascii_spec_bytes("encoding");
}

/// Copies a literal's bytes into a fresh vector.
fn str_bytes(s: &str) -> (r: Vec<u8>)
    ensures
        r@ == s.spec_bytes(),
{
    let bytes = s.as_bytes();
    let out = crate::text::copy_range(bytes, 0, bytes.len());
    proof {
        assert(out@ =~= bytes@);
    }
    out
}

/// A zero size anywhere makes the whole product zero.
proof fn lemma_prod_zero(s: Seq<usize>, k: int)
    requires
        0 <= k < s.len(),
        s[k] == 0,
    ensures
        prod_usize(s) == 0,
    decreases s.len(),
{
    if s.len() > 0 {
        if k == s.len() - 1 {
            assert(prod_usize(s) == prod_usize(s.drop_last()) * 0);
            assert(prod_usize(s.drop_last()) * 0 == 0) by (nonlinear_arith);
        } else {
            assert(s.drop_last()[k] == s[k]);
            lemma_prod_zero(s.drop_last(), k);
            assert(prod_usize(s) == 0 * s.last());
            assert(0 * s.last() == 0) by (nonlinear_arith);
        }
    }
}

} // verus!
