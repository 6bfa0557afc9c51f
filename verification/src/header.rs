//! The data model of an NRRD record: format revisions, header fields,
//! free-form key/value metadata, pixel types, encodings, byte order, and the
//! validated record (`Nrrd`) that parsing produces and writing consumes.

use vstd::prelude::*;

verus! {

use vstd::string::StringSliceAdditionalSpecFns;

/// Format revision, ordered: revisions below `Nrrd2` may not carry free-form
/// key/value metadata.
#[derive(Clone, Copy, PartialEq, Eq, PartialOrd, Ord, Structural, Debug)]
pub enum Version {
    Nrrd1,
    Nrrd2,
    Nrrd3,
    Nrrd4,
    Nrrd5,
}

impl Version {
    /// The revision number coded into the magic line.
    pub open spec fn number_spec(self) -> int {
        match self {
            Version::Nrrd1 => 1,
            Version::Nrrd2 => 2,
            Version::Nrrd3 => 3,
            Version::Nrrd4 => 4,
            Version::Nrrd5 => 5,
        }
    }

    /// Whether `<key>:=<value>` metadata lines are legal at this revision.
    pub open spec fn allows_key_values(self) -> bool {
        self.number_spec() >= 2
    }

    pub fn number(&self) -> (n: u32)
        ensures
            n == self.number_spec(),
    {
        match self {
            Version::Nrrd1 => 1,
            Version::Nrrd2 => 2,
            Version::Nrrd3 => 3,
            Version::Nrrd4 => 4,
            Version::Nrrd5 => 5,
        }
    }
}

/// A declared header entry, one `<identifier>: <descriptor>` line.
/// The identifier is stored lower-cased (the canonical normalization chosen
/// here is ASCII case folding); the descriptor has trailing ASCII whitespace
/// trimmed. Field identity is by identifier alone: a header never holds two
/// fields with the same identifier.
#[derive(Clone, Debug)]
pub struct Field {
    pub identifier: Vec<u8>,
    pub descriptor: Vec<u8>,
}

pub struct FieldView {
    pub identifier: Seq<u8>,
    pub descriptor: Seq<u8>,
}

impl View for Field {
    type V = FieldView;

    open spec fn view(&self) -> FieldView {
        FieldView { identifier: self.identifier@, descriptor: self.descriptor@ }
    }
}

/// A free-form `<key>:=<value>` metadata line, legal only at `Nrrd2` and
/// above. Identity is by key alone, and a later key silently replaces an
/// earlier equal one: duplicate keys are not an error (unlike fields).
#[derive(Clone, Debug)]
pub struct KeyValue {
    pub key: Vec<u8>,
    pub value: Vec<u8>,
}

pub struct KeyValueView {
    pub key: Seq<u8>,
    pub value: Seq<u8>,
}

impl View for KeyValue {
    type V = KeyValueView;

    open spec fn view(&self) -> KeyValueView {
        KeyValueView { key: self.key@, value: self.value@ }
    }
}

/// The closed set of pixel scalar types, plus an opaque `Block` carrying its
/// positive byte size.
#[derive(Clone, Copy, PartialEq, Eq, Structural, Debug)]
pub enum PixelType {
    Int8,
    UInt8,
    Int16,
    UInt16,
    Int32,
    UInt32,
    Int64,
    UInt64,
    Float32,
    Float64,
    Block(i32),
}

/// The canonical on-disk byte width of each pixel type; the single source of
/// truth every component consults.
pub open spec fn size_spec(pt: PixelType) -> int {
    match pt {
        PixelType::Int8 | PixelType::UInt8 => 1,
        PixelType::Int16 | PixelType::UInt16 => 2,
        PixelType::Int32 | PixelType::UInt32 | PixelType::Float32 => 4,
        PixelType::Int64 | PixelType::UInt64 | PixelType::Float64 => 8,
        PixelType::Block(size) => size as int,
    }
}

/// The canonical textual name of each pixel type; the alias table maps many
/// names onto these on read.
pub open spec fn name_spec(pt: PixelType) -> Seq<u8> {
    match pt {
        PixelType::Int8 => "int8".spec_bytes(),
        PixelType::UInt8 => "uint8".spec_bytes(),
        PixelType::Int16 => "int16".spec_bytes(),
        PixelType::UInt16 => "uint16".spec_bytes(),
        PixelType::Int32 => "int32".spec_bytes(),
        PixelType::UInt32 => "uint32".spec_bytes(),
        PixelType::Int64 => "int64".spec_bytes(),
        PixelType::UInt64 => "uint64".spec_bytes(),
        PixelType::Float32 => "float".spec_bytes(),
        PixelType::Float64 => "double".spec_bytes(),
        PixelType::Block(_) => "block".spec_bytes(),
    }
}

impl PixelType {
    /// The canonical textual name of this pixel type.
    pub fn canonical_name(&self) -> (r: Vec<u8>)
        ensures
            r@ == name_spec(*self),
    {
        let name: &str = match self {
            PixelType::Int8 => "int8",
            PixelType::UInt8 => "uint8",
            PixelType::Int16 => "int16",
            PixelType::UInt16 => "uint16",
            PixelType::Int32 => "int32",
            PixelType::UInt32 => "uint32",
            PixelType::Int64 => "int64",
            PixelType::UInt64 => "uint64",
            PixelType::Float32 => "float",
            PixelType::Float64 => "double",
            PixelType::Block(_) => "block",
        };
        let bytes = name.as_bytes();
        let mut out: Vec<u8> = Vec::new();
        let n = bytes.len();
        let mut i: usize = 0;
        while i < n
            invariant
                i <= n == bytes@.len(),
                bytes@ == name_spec(*self),
                out@ == bytes@.take(i as int),
            decreases n - i,
        {
            out.push(bytes[i]);
            proof {
                assert(bytes@.take(i + 1) =~= bytes@.take(i as int).push(bytes@[i as int]));
            }
            i = i + 1;
        }
        proof {
            assert(bytes@.take(n as int) =~= bytes@);
        }
        out
    }

    /// A `Block` must carry the positive byte size the format demands of it.
    pub open spec fn wf(self) -> bool {
        match self {
            PixelType::Block(size) => size > 0,
            _ => true,
        }
    }

    /// Returns the size of the pixel type in bytes.
    pub fn size(self) -> (r: usize)
        requires
            self.wf(),
        ensures
            r as int == size_spec(self),
            r >= 1,
    {
        match self {
            PixelType::Int8 | PixelType::UInt8 => 1,
            PixelType::Int16 | PixelType::UInt16 => 2,
            PixelType::Int32 | PixelType::UInt32 | PixelType::Float32 => 4,
            PixelType::Int64 | PixelType::UInt64 | PixelType::Float64 => 8,
            PixelType::Block(size) => size as usize,
        }
    }
}

/// The declared payload encoding. Only `Raw` is accepted when reconstructing
/// a typed image; the others are recognized declarations that the conversion
/// boundary rejects. An unrecognized token is kept verbatim in `Other`.
#[derive(Clone, Debug)]
pub enum Encoding {
    Raw,
    Ascii,
    GZip,
    BZip2,
    Other(Vec<u8>),
}

pub enum EncodingView {
    Raw,
    Ascii,
    GZip,
    BZip2,
    Other(Seq<u8>),
}

impl View for Encoding {
    type V = EncodingView;

    open spec fn view(&self) -> EncodingView {
        match self {
            Encoding::Raw => EncodingView::Raw,
            Encoding::Ascii => EncodingView::Ascii,
            Encoding::GZip => EncodingView::GZip,
            Encoding::BZip2 => EncodingView::BZip2,
            Encoding::Other(token) => EncodingView::Other(token@),
        }
    }
}

/// Byte order of multi-byte pixel values. Defaults to little when the header
/// omits it and the pixel width does not require it.
#[derive(Clone, Copy, PartialEq, Eq, Structural, Debug)]
pub enum Endian {
    Little,
    Big,
}

/// The product of a sequence of axis sizes, as a mathematical integer.
pub open spec fn prod_i32(s: Seq<i32>) -> int
    decreases s.len(),
{
    if s.len() == 0 {
        1
    } else {
        prod_i32(s.drop_last()) * s.last()
    }
}

/// The product of a sequence of axis sizes, as a mathematical integer.
pub open spec fn prod_usize(s: Seq<usize>) -> int
    decreases s.len(),
{
    if s.len() == 0 {
        1
    } else {
        prod_usize(s.drop_last()) * s.last()
    }
}

/// Sequences equal element by element have equal products.
pub proof fn lemma_prod_agree(a: Seq<i32>, b: Seq<usize>)
    requires
        a.len() == b.len(),
        forall|k: int| 0 <= k < a.len() ==> a[k] as int == (#[trigger] b[k]) as int,
    ensures
        prod_i32(a) == prod_usize(b),
    decreases a.len(),
{
    if a.len() > 0 {
        assert(forall|k: int|
            0 <= k < a.len() - 1 ==> a.drop_last()[k] as int == (#[trigger] b.drop_last()[k]) as int);
        lemma_prod_agree(a.drop_last(), b.drop_last());
    }
}

/// The views of a list of fields.
pub open spec fn fields_view(fields: Seq<Field>) -> Seq<FieldView> {
    fields.map_values(|f: Field| f@)
}

/// The views of a list of key/value entries.
pub open spec fn key_values_view(kvs: Seq<KeyValue>) -> Seq<KeyValueView> {
    kvs.map_values(|kv: KeyValue| kv@)
}

/// No two entries share an identifier.
pub open spec fn unique_identifiers(fields: Seq<FieldView>) -> bool {
    forall|i: int, j: int|
        0 <= i < j < fields.len() ==> fields[i].identifier != fields[j].identifier
}

/// A parsed, validated record: header metadata plus the raw payload bytes.
#[derive(Clone, Debug)]
pub struct Nrrd {
    pub version: Version,
    pub fields: Vec<Field>,
    pub key_values: Vec<KeyValue>,
    pub dimension: i32,
    pub sizes: Vec<i32>,
    pub pixel_type: PixelType,
    pub encoding: Encoding,
    pub endian: Endian,
    pub buffer: Vec<u8>,
}

pub struct NrrdView {
    pub version: Version,
    pub fields: Seq<FieldView>,
    pub key_values: Seq<KeyValueView>,
    pub dimension: i32,
    pub sizes: Seq<i32>,
    pub pixel_type: PixelType,
    pub encoding: EncodingView,
    pub endian: Endian,
    pub buffer: Seq<u8>,
}

impl View for Nrrd {
    type V = NrrdView;

    open spec fn view(&self) -> NrrdView {
        NrrdView {
            version: self.version,
            fields: fields_view(self.fields@),
            key_values: key_values_view(self.key_values@),
            dimension: self.dimension,
            sizes: self.sizes@,
            pixel_type: self.pixel_type,
            encoding: self.encoding@,
            endian: self.endian,
            buffer: self.buffer@,
        }
    }
}

impl NrrdView {
    /// The record invariant: the dimension is positive and counts the axis
    /// sizes, a block type carries a positive size, field identifiers are
    /// unique, and the payload holds exactly one pixel-width of bytes per
    /// pixel of the declared shape.
    pub open spec fn wf(self) -> bool {
        &&& self.dimension >= 1
        &&& self.sizes.len() == self.dimension
        &&& self.pixel_type.wf()
        &&& unique_identifiers(self.fields)
        &&& self.buffer.len() == prod_i32(self.sizes) * size_spec(self.pixel_type)
    }
}

impl Nrrd {
    pub fn buffer(&self) -> (r: &Vec<u8>)
        ensures
            r@ == self@.buffer,
    {
        &self.buffer
    }

    pub fn dimension(&self) -> (r: i32)
        ensures
            r == self@.dimension,
    {
        self.dimension
    }

    pub fn pixel_type(&self) -> (r: PixelType)
        ensures
            r == self@.pixel_type,
    {
        self.pixel_type
    }

    pub fn sizes(&self) -> (r: &Vec<i32>)
        ensures
            r@ == self@.sizes,
    {
        &self.sizes
    }

    pub fn endian(&self) -> (r: Endian)
        ensures
            r == self@.endian,
    {
        self.endian
    }

    pub fn encoding(&self) -> (r: &Encoding)
        ensures
            r@ == self@.encoding,
    {
        &self.encoding
    }

    pub fn fields(&self) -> (r: &Vec<Field>)
        ensures
            fields_view(r@) == self@.fields,
    {
        &self.fields
    }

    pub fn key_values(&self) -> (r: &Vec<KeyValue>)
        ensures
            key_values_view(r@) == self@.key_values,
    {
        &self.key_values
    }

    pub fn version(&self) -> (r: Version)
        ensures
            r == self@.version,
    {
        self.version
    }
}

} // verus!
