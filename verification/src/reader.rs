//! The header parser: a line-oriented state machine that turns the wire bytes
//! into a validated `Nrrd` record or a precise parse error.
//!
//! The grammar: a magic line naming the revision; then body lines, each a
//! comment (`#`), a field (`<identifier>: <descriptor>`), or — at `Nrrd2` and
//! above — a key/value (`<key>:=<value>`); the header ends at an empty line
//! (the payload follows) or at end of input. Required fields are consumed as
//! they are seen and checked once all lines are read; finally the payload
//! length is checked byte-for-byte against the declared shape.
//!
//! Every step is mirrored by a spec function over byte sequences, and
//! `read_nrrd` is proved to return exactly what the spec model says, for
//! every input.

use vstd::prelude::*;

verus! {

use vstd::string::StringSliceAdditionalSpecFns;
use crate::header::{
    Version,
    Field,
    FieldView,
    KeyValue,
    KeyValueView,
    PixelType,
    Encoding,
    EncodingView,
    Endian,
};
use crate::text::{
    HASH,
    COLON,
    SPACE,
    EQUALS,
    NEWLINE,
    CARRIAGE_RETURN,
    find_byte,
    lemma_find_byte,
    to_lower,
    trim_end,
    find_pair,
    lemma_find_pair,
    bytes_eq,
    copy_range,
    to_lower_exec,
    trim_end_exec,
    parse_i32,
    parse_i32_exec,
    split_ws,
    split_ws_exec,
    views_of,
};
use crate::header::{size_spec, prod_i32, fields_view, key_values_view, unique_identifiers, Nrrd, NrrdView};

/// The reason a header is rejected as malformed; each missing or invalid
/// required field is its own case, so a caller can name the field at fault.
#[derive(Clone, Debug)]
pub enum MalformedReason {
    /// A body line that is no comment, no field, and no key/value line legal
    /// at the header's revision: carries the 1-based line number and the text.
    UnexpectedLine { line: usize, text: Vec<u8> },
    InvalidDimension,
    SizesBeforeDimension,
    InvalidSizes,
    TooManySizes,
    MismatchedDimensionSizes,
    InvalidType,
    InvalidBlockSize,
    InvalidEndian,
    MissingDimension,
    MissingSizes,
    MissingType,
    MissingBlockSize,
    MissingEncoding,
    MissingEndian,
    BufferSizeMismatch,
}

pub enum ReasonView {
    UnexpectedLine { line: int, text: Seq<u8> },
    InvalidDimension,
    SizesBeforeDimension,
    InvalidSizes,
    TooManySizes,
    MismatchedDimensionSizes,
    InvalidType,
    InvalidBlockSize,
    InvalidEndian,
    MissingDimension,
    MissingSizes,
    MissingType,
    MissingBlockSize,
    MissingEncoding,
    MissingEndian,
    BufferSizeMismatch,
}

impl View for MalformedReason {
    type V = ReasonView;

    open spec fn view(&self) -> ReasonView {
        match self {
            MalformedReason::UnexpectedLine { line, text } => ReasonView::UnexpectedLine {
                line: *line as int,
                text: text@,
            },
            MalformedReason::InvalidDimension => ReasonView::InvalidDimension,
            MalformedReason::SizesBeforeDimension => ReasonView::SizesBeforeDimension,
            MalformedReason::InvalidSizes => ReasonView::InvalidSizes,
            MalformedReason::TooManySizes => ReasonView::TooManySizes,
            MalformedReason::MismatchedDimensionSizes => ReasonView::MismatchedDimensionSizes,
            MalformedReason::InvalidType => ReasonView::InvalidType,
            MalformedReason::InvalidBlockSize => ReasonView::InvalidBlockSize,
            MalformedReason::InvalidEndian => ReasonView::InvalidEndian,
            MalformedReason::MissingDimension => ReasonView::MissingDimension,
            MalformedReason::MissingSizes => ReasonView::MissingSizes,
            MalformedReason::MissingType => ReasonView::MissingType,
            MalformedReason::MissingBlockSize => ReasonView::MissingBlockSize,
            MalformedReason::MissingEncoding => ReasonView::MissingEncoding,
            MalformedReason::MissingEndian => ReasonView::MissingEndian,
            MalformedReason::BufferSizeMismatch => ReasonView::BufferSizeMismatch,
        }
    }
}

/// A parse failure: the magic line named no known revision, a field
/// identifier was declared twice, or the header is malformed. Every failure
/// aborts the parse at once; no partial record is ever returned.
#[derive(Clone, Debug)]
pub enum ReadNrrdErr {
    UnknownVersion { magic: Vec<u8> },
    DuplicateField { identifier: Vec<u8>, line: usize },
    Malformed { reason: MalformedReason },
}

pub enum ErrView {
    UnknownVersion { magic: Seq<u8> },
    DuplicateField { identifier: Seq<u8>, line: int },
    Malformed { reason: ReasonView },
}

impl View for ReadNrrdErr {
    type V = ErrView;

    open spec fn view(&self) -> ErrView {
        match self {
            ReadNrrdErr::UnknownVersion { magic } => ErrView::UnknownVersion { magic: magic@ },
            ReadNrrdErr::DuplicateField { identifier, line } => ErrView::DuplicateField {
                identifier: identifier@,
                line: *line as int,
            },
            ReadNrrdErr::Malformed { reason } => ErrView::Malformed { reason: reason@ },
        }
    }
}

/// The magic line, stripped of its terminator, must be one of five fixed
/// literal tokens, one per revision; anything else names no version.
pub open spec fn spec_magic(line: Seq<u8>) -> Option<Version> {
    if line == "NRRD0001".spec_bytes() {
        Some(Version::Nrrd1)
    } else if line == "NRRD0002".spec_bytes() {
        Some(Version::Nrrd2)
    } else if line == "NRRD0003".spec_bytes() {
        Some(Version::Nrrd3)
    } else if line == "NRRD0004".spec_bytes() {
        Some(Version::Nrrd4)
    } else if line == "NRRD0005".spec_bytes() {
        Some(Version::Nrrd5)
    } else {
        None
    }
}

pub fn try_read_magic(line: &[u8]) -> (r: Result<Version, ReadNrrdErr>)
    ensures
        match r {
            Ok(v) => spec_magic(line@) == Some(v),
            Err(e) => spec_magic(line@) is None && e@ == (ErrView::UnknownVersion {
                magic: line@,
            }),
        },
{
    if bytes_eq(line, "NRRD0001".as_bytes()) {
        Ok(Version::Nrrd1)
    } else if bytes_eq(line, "NRRD0002".as_bytes()) {
        Ok(Version::Nrrd2)
    } else if bytes_eq(line, "NRRD0003".as_bytes()) {
        Ok(Version::Nrrd3)
    } else if bytes_eq(line, "NRRD0004".as_bytes()) {
        Ok(Version::Nrrd4)
    } else if bytes_eq(line, "NRRD0005".as_bytes()) {
        Ok(Version::Nrrd5)
    } else {
        let magic = copy_range(line, 0, line.len());
        proof {
            assert(magic@ =~= line@);
        }
        Err(ReadNrrdErr::UnknownVersion { magic })
    }
}

/// A field line splits at the first `": "`: the identifier (case-folded to
/// the canonical lower case) before it, the descriptor (trailing whitespace
/// trimmed) after it.
pub open spec fn spec_read_field(line: Seq<u8>) -> Option<FieldView> {
    match find_pair(line, COLON, SPACE) {
        Some(i) => Some(
            FieldView { identifier: to_lower(line.take(i)), descriptor: trim_end(line.skip(i + 2)) },
        ),
        None => None,
    }
}

/// A key/value line splits at the first `":="`; an empty key is no key/value
/// line at all.
pub open spec fn spec_read_key_value(line: Seq<u8>) -> Option<KeyValueView> {
    match find_pair(line, COLON, EQUALS) {
        Some(i) => if i == 0 {
            None
        } else {
            Some(KeyValueView { key: line.take(i), value: line.skip(i + 2) })
        },
        None => None,
    }
}

/// Finds the first occurrence of the byte pair `a b` in `line`.
fn find_pair_exec(line: &[u8], a: u8, b: u8) -> (r: Option<usize>)
    ensures
        match r {
            Some(i) => find_pair(line@, a, b) == Some(i as int) && i + 1 < line@.len()
                && line@[i as int] == a && line@[i + 1] == b,
            None => find_pair(line@, a, b) is None,
        },
{
    let n = line.len();
    if n < 2 {
        return None;
    }
    let mut j: usize = 0;
    while j + 1 < n
        invariant
            j + 1 <= n == line@.len(),
            forall|i: int| 0 <= i < j ==> !(#[trigger] line@[i] == a && line@[i + 1] == b),
        decreases n - j,
    {
        if line[j] == a && line[j + 1] == b {
            proof {
                lemma_find_pair(line@, a, b, j as int);
            }
            return Some(j);
        }
        j = j + 1;
    }
    proof {
        lemma_find_pair(line@, a, b, j as int);
    }
    None
}

pub fn try_read_field(line: &[u8]) -> (r: Option<Field>)
    ensures
        match r {
            Some(f) => spec_read_field(line@) == Some(f@),
            None => spec_read_field(line@) is None,
        },
{
    match find_pair_exec(line, COLON, SPACE) {
        Some(i) => {
            let n = line.len();
            let ident_raw = copy_range(line, 0, i);
            let desc_raw = copy_range(line, i + 2, n);
            proof {
                assert(line@.subrange(0, i as int) =~= line@.take(i as int));
                assert(line@.subrange(i + 2, line@.len() as int) =~= line@.skip(i + 2));
            }
            Some(
                Field {
                    identifier: to_lower_exec(ident_raw.as_slice()),
                    descriptor: trim_end_exec(desc_raw.as_slice()),
                },
            )
        },
        None => None,
    }
}

pub fn try_read_key_value(line: &[u8]) -> (r: Option<KeyValue>)
    ensures
        match r {
            Some(kv) => spec_read_key_value(line@) == Some(kv@),
            None => spec_read_key_value(line@) is None,
        },
{
    match find_pair_exec(line, COLON, EQUALS) {
        Some(i) => {
            if i == 0 {
                return None;
            }
            let n = line.len();
            let key = copy_range(line, 0, i);
            let value = copy_range(line, i + 2, n);
            proof {
                assert(line@.subrange(0, i as int) =~= line@.take(i as int));
                assert(line@.subrange(i + 2, line@.len() as int) =~= line@.skip(i + 2));
            }
            Some(KeyValue { key, value })
        },
        None => None,
    }
}

/// The alias table of pixel type names: many textual names denote one
/// canonical variant. A `block` descriptor yields `Block(0)`, a placeholder
/// completed by the `block size` field during final validation.
pub open spec fn spec_pixel_type(desc: Seq<u8>) -> Option<PixelType> {
    if desc == "signed char".spec_bytes() || desc == "int8".spec_bytes() || desc
        == "int8_t".spec_bytes() {
        Some(PixelType::Int8)
    } else if desc == "uchar".spec_bytes() || desc == "unsigned char".spec_bytes() || desc
        == "uint8".spec_bytes() || desc == "uint8_t".spec_bytes() {
        Some(PixelType::UInt8)
    } else if desc == "short".spec_bytes() || desc == "short int".spec_bytes() || desc
        == "signed short".spec_bytes() || desc == "signed short int".spec_bytes() || desc
        == "int16".spec_bytes() || desc == "int16_t".spec_bytes() {
        Some(PixelType::Int16)
    } else if desc == "ushort".spec_bytes() || desc == "unsigned short".spec_bytes() || desc
        == "unsigned short int".spec_bytes() || desc == "uint16".spec_bytes() || desc
        == "uint16_t".spec_bytes() {
        Some(PixelType::UInt16)
    } else if desc == "int".spec_bytes() || desc == "signed int".spec_bytes() || desc
        == "int32".spec_bytes() || desc == "int32_t".spec_bytes() {
        Some(PixelType::Int32)
    } else if desc == "uint".spec_bytes() || desc == "unsigned int".spec_bytes() || desc
        == "uint32".spec_bytes() || desc == "uint32_t".spec_bytes() {
        Some(PixelType::UInt32)
    } else if desc == "longlong".spec_bytes() || desc == "long long".spec_bytes() || desc
        == "long long int".spec_bytes() || desc == "signed long long".spec_bytes() || desc
        == "signed long long int".spec_bytes() || desc == "int64".spec_bytes() || desc
        == "int64_t".spec_bytes() {
        Some(PixelType::Int64)
    } else if desc == "ulonglong".spec_bytes() || desc == "unsigned long long".spec_bytes() || desc
        == "unsigned long long int".spec_bytes() || desc == "uint64".spec_bytes() || desc
        == "uint64_t".spec_bytes() {
        Some(PixelType::UInt64)
    } else if desc == "float".spec_bytes() {
        Some(PixelType::Float32)
    } else if desc == "double".spec_bytes() {
        Some(PixelType::Float64)
    } else if desc == "block".spec_bytes() {
        Some(PixelType::Block(0))
    } else {
        None
    }
}

pub fn pixel_type_of(desc: &[u8]) -> (r: Option<PixelType>)
    ensures
        r == spec_pixel_type(desc@),
{
    if bytes_eq(desc, "signed char".as_bytes()) || bytes_eq(desc, "int8".as_bytes()) || bytes_eq(
        desc,
        "int8_t".as_bytes(),
    ) {
        Some(PixelType::Int8)
    } else if bytes_eq(desc, "uchar".as_bytes()) || bytes_eq(desc, "unsigned char".as_bytes())
        || bytes_eq(desc, "uint8".as_bytes()) || bytes_eq(desc, "uint8_t".as_bytes()) {
        Some(PixelType::UInt8)
    } else if bytes_eq(desc, "short".as_bytes()) || bytes_eq(desc, "short int".as_bytes())
        || bytes_eq(desc, "signed short".as_bytes()) || bytes_eq(
        desc,
        "signed short int".as_bytes(),
    ) || bytes_eq(desc, "int16".as_bytes()) || bytes_eq(desc, "int16_t".as_bytes()) {
        Some(PixelType::Int16)
    } else if bytes_eq(desc, "ushort".as_bytes()) || bytes_eq(desc, "unsigned short".as_bytes())
        || bytes_eq(desc, "unsigned short int".as_bytes()) || bytes_eq(desc, "uint16".as_bytes())
        || bytes_eq(desc, "uint16_t".as_bytes()) {
        Some(PixelType::UInt16)
    } else if bytes_eq(desc, "int".as_bytes()) || bytes_eq(desc, "signed int".as_bytes())
        || bytes_eq(desc, "int32".as_bytes()) || bytes_eq(desc, "int32_t".as_bytes()) {
        Some(PixelType::Int32)
    } else if bytes_eq(desc, "uint".as_bytes()) || bytes_eq(desc, "unsigned int".as_bytes())
        || bytes_eq(desc, "uint32".as_bytes()) || bytes_eq(desc, "uint32_t".as_bytes()) {
        Some(PixelType::UInt32)
    } else if bytes_eq(desc, "longlong".as_bytes()) || bytes_eq(desc, "long long".as_bytes())
        || bytes_eq(desc, "long long int".as_bytes()) || bytes_eq(
        desc,
        "signed long long".as_bytes(),
    ) || bytes_eq(desc, "signed long long int".as_bytes()) || bytes_eq(desc, "int64".as_bytes())
        || bytes_eq(desc, "int64_t".as_bytes()) {
        Some(PixelType::Int64)
    } else if bytes_eq(desc, "ulonglong".as_bytes()) || bytes_eq(
        desc,
        "unsigned long long".as_bytes(),
    ) || bytes_eq(desc, "unsigned long long int".as_bytes()) || bytes_eq(
        desc,
        "uint64".as_bytes(),
    ) || bytes_eq(desc, "uint64_t".as_bytes()) {
        Some(PixelType::UInt64)
    } else if bytes_eq(desc, "float".as_bytes()) {
        Some(PixelType::Float32)
    } else if bytes_eq(desc, "double".as_bytes()) {
        Some(PixelType::Float64)
    } else if bytes_eq(desc, "block".as_bytes()) {
        Some(PixelType::Block(0))
    } else {
        None
    }
}

/// The alias table of encodings; an unrecognized token is `Other`, never a
/// hard error.
pub open spec fn spec_encoding(desc: Seq<u8>) -> EncodingView {
    if desc == "raw".spec_bytes() {
        EncodingView::Raw
    } else if desc == "ascii".spec_bytes() || desc == "text".spec_bytes() || desc
        == "txt".spec_bytes() {
        EncodingView::Ascii
    } else if desc == "gzip".spec_bytes() || desc == "gz".spec_bytes() {
        EncodingView::GZip
    } else if desc == "bzip2".spec_bytes() || desc == "bz2".spec_bytes() {
        EncodingView::BZip2
    } else {
        EncodingView::Other(desc)
    }
}

pub fn encoding_of(desc: &[u8]) -> (r: Encoding)
    ensures
        r@ == spec_encoding(desc@),
{
    if bytes_eq(desc, "raw".as_bytes()) {
        Encoding::Raw
    } else if bytes_eq(desc, "ascii".as_bytes()) || bytes_eq(desc, "text".as_bytes()) || bytes_eq(
        desc,
        "txt".as_bytes(),
    ) {
        Encoding::Ascii
    } else if bytes_eq(desc, "gzip".as_bytes()) || bytes_eq(desc, "gz".as_bytes()) {
        Encoding::GZip
    } else if bytes_eq(desc, "bzip2".as_bytes()) || bytes_eq(desc, "bz2".as_bytes()) {
        Encoding::BZip2
    } else {
        let token = copy_range(desc, 0, desc.len());
        proof {
            assert(token@ =~= desc@);
        }
        Encoding::Other(token)
    }
}

/// The two endian tokens.
pub open spec fn spec_endian(desc: Seq<u8>) -> Option<Endian> {
    if desc == "little".spec_bytes() {
        Some(Endian::Little)
    } else if desc == "big".spec_bytes() {
        Some(Endian::Big)
    } else {
        None
    }
}

pub fn endian_of(desc: &[u8]) -> (r: Option<Endian>)
    ensures
        r == spec_endian(desc@),
{
    if bytes_eq(desc, "little".as_bytes()) {
        Some(Endian::Little)
    } else if bytes_eq(desc, "big".as_bytes()) {
        Some(Endian::Big)
    } else {
        None
    }
}

/// Whether every whitespace-separated token parses as an `i32`.
pub open spec fn all_tokens_parse(toks: Seq<Seq<u8>>) -> bool {
    forall|k: int| 0 <= k < toks.len() ==> parse_i32(#[trigger] toks[k]) is Some
}

/// The parsed value of every token; meaningful under `all_tokens_parse`.
pub open spec fn parsed_sizes(toks: Seq<Seq<u8>>) -> Seq<i32> {
    toks.map_values(
        |t: Seq<u8>|
            match parse_i32(t) {
                Some(x) => x,
                None => 0,
            },
    )
}

/// The required-field accumulator's model: which of the structural fields
/// have been seen, and with what values.
pub struct AccView {
    pub dimension: Option<i32>,
    pub sizes: Option<Seq<i32>>,
    pub pixel_type: Option<PixelType>,
    pub encoding: Option<EncodingView>,
    pub block_size: Option<i32>,
    pub endian: Option<Endian>,
}

impl AccView {
    pub open spec fn empty() -> AccView {
        AccView {
            dimension: None,
            sizes: None,
            pixel_type: None,
            encoding: None,
            block_size: None,
            endian: None,
        }
    }
}

/// The `sizes` field: legal only once `dimension` was seen; its descriptor
/// splits at whitespace into exactly `dimension` integer tokens.
#[verifier::opaque]
pub open spec fn spec_apply_sizes(acc: AccView, desc: Seq<u8>) -> Result<AccView, ReasonView> {
    match acc.dimension {
        None => Err(ReasonView::SizesBeforeDimension),
        Some(d) => {
            let toks = split_ws(desc);
            if !all_tokens_parse(toks) {
                Err(ReasonView::InvalidSizes)
            } else if toks.len() > i32::MAX {
                Err(ReasonView::TooManySizes)
            } else if toks.len() != d {
                Err(ReasonView::MismatchedDimensionSizes)
            } else {
                Ok(AccView { sizes: Some(parsed_sizes(toks)), ..acc })
            }
        },
    }
}

/// How one field feeds the accumulator. `dimension` must parse as a positive
/// integer; `sizes` demands that `dimension` was already seen and that its
/// token count equals it exactly; `type`, `encoding` and `endian` go through
/// their alias tables; `block size` (either spelling) parses as an integer
/// whose sign is judged only at final validation. Any other identifier leaves
/// the accumulator untouched.
/// The `dimension` field: its descriptor must parse as a positive integer.
#[verifier::opaque]
pub open spec fn spec_apply_dimension(acc: AccView, desc: Seq<u8>) -> Result<AccView, ReasonView> {
    match parse_i32(desc) {
        Some(d) => if d >= 1 {
            Ok(AccView { dimension: Some(d), ..acc })
        } else {
            Err(ReasonView::InvalidDimension)
        },
        None => Err(ReasonView::InvalidDimension),
    }
}

/// The `type` field: resolved through the alias table; an unknown token is
/// malformed.
#[verifier::opaque]
pub open spec fn spec_apply_type(acc: AccView, desc: Seq<u8>) -> Result<AccView, ReasonView> {
    match spec_pixel_type(desc) {
        Some(pt) => Ok(AccView { pixel_type: Some(pt), ..acc }),
        None => Err(ReasonView::InvalidType),
    }
}

/// The `encoding` field: never a hard error, an unknown token stays verbatim.
#[verifier::opaque]
pub open spec fn spec_apply_encoding(acc: AccView, desc: Seq<u8>) -> Result<AccView, ReasonView> {
    Ok(AccView { encoding: Some(spec_encoding(desc)), ..acc })
}

/// The `block size` field: any integer is stored; its sign is judged only at
/// final validation.
#[verifier::opaque]
pub open spec fn spec_apply_block_size(acc: AccView, desc: Seq<u8>) -> Result<AccView, ReasonView> {
    match parse_i32(desc) {
        Some(b) => Ok(AccView { block_size: Some(b), ..acc }),
        None => Err(ReasonView::InvalidBlockSize),
    }
}

/// The `endian` field: the `little` and `big` literals only.
#[verifier::opaque]
pub open spec fn spec_apply_endian(acc: AccView, desc: Seq<u8>) -> Result<AccView, ReasonView> {
    match spec_endian(desc) {
        Some(e) => Ok(AccView { endian: Some(e), ..acc }),
        None => Err(ReasonView::InvalidEndian),
    }
}

#[verifier::opaque]
pub open spec fn spec_apply_field(acc: AccView, f: FieldView) -> Result<AccView, ReasonView> {
    if f.identifier == "dimension".spec_bytes() {
        spec_apply_dimension(acc, f.descriptor)
    } else if f.identifier == "sizes".spec_bytes() {
        spec_apply_sizes(acc, f.descriptor)
    } else if f.identifier == "type".spec_bytes() {
        spec_apply_type(acc, f.descriptor)
    } else if f.identifier == "encoding".spec_bytes() {
        spec_apply_encoding(acc, f.descriptor)
    } else if f.identifier == "block size".spec_bytes() || f.identifier
        == "blocksize".spec_bytes() {
        spec_apply_block_size(acc, f.descriptor)
    } else if f.identifier == "endian".spec_bytes() {
        spec_apply_endian(acc, f.descriptor)
    } else {
        Ok(acc)
    }
}

/// The checks on the completed accumulator, in dependency order: `dimension`
/// present, `sizes` present, `type` present — a `Block` type completed by a
/// positive `block size`, any other multi-byte type requiring `endian` (a
/// one-byte type may omit it) — and `encoding` present. An omitted `endian`
/// defaults to little; a `Block` type never demands one.
pub open spec fn spec_validate(acc: AccView) -> Result<
    (i32, Seq<i32>, PixelType, EncodingView, Endian),
    ReasonView,
> {
    if acc.dimension is None {
        Err(ReasonView::MissingDimension)
    } else if acc.sizes is None {
        Err(ReasonView::MissingSizes)
    } else {
        match acc.pixel_type {
            None => Err(ReasonView::MissingType),
            Some(pt) => {
                let checked = match pt {
                    PixelType::Block(_) => match acc.block_size {
                        None => Err(ReasonView::MissingBlockSize),
                        Some(b) => if b > 0 {
                            Ok(PixelType::Block(b))
                        } else {
                            Err(ReasonView::InvalidBlockSize)
                        },
                    },
                    _ => if size_spec(pt) == 1 || acc.endian is Some {
                        Ok(pt)
                    } else {
                        Err(ReasonView::MissingEndian)
                    },
                };
                match checked {
                    Err(reason) => Err(reason),
                    Ok(final_pt) => if acc.encoding is None {
                        Err(ReasonView::MissingEncoding)
                    } else {
                        Ok(
                            (
                                acc.dimension->0,
                                acc.sizes->0,
                                final_pt,
                                acc.encoding->0,
                                match acc.endian {
                                    Some(e) => e,
                                    None => Endian::Little,
                                },
                            ),
                        )
                    },
                }
            },
        }
    }
}

/// The required-field accumulator: consumes the structural fields as the
/// parser meets them, and is validated once all lines are read.
pub struct RequiredFields {
    pub dimension: Option<i32>,
    pub sizes: Option<Vec<i32>>,
    pub pixel_type: Option<PixelType>,
    pub encoding: Option<Encoding>,
    pub block_size: Option<i32>,
    pub endian: Option<Endian>,
}

impl View for RequiredFields {
    type V = AccView;

    open spec fn view(&self) -> AccView {
        AccView {
            dimension: self.dimension,
            sizes: match self.sizes {
                Some(v) => Some(v@),
                None => None,
            },
            pixel_type: self.pixel_type,
            encoding: match &self.encoding {
                Some(e) => Some(e@),
                None => None,
            },
            block_size: self.block_size,
            endian: self.endian,
        }
    }
}

impl RequiredFields {
    pub fn new() -> (r: RequiredFields)
        ensures
            r@ == AccView::empty(),
    {
        RequiredFields {
            dimension: None,
            sizes: None,
            pixel_type: None,
            encoding: None,
            block_size: None,
            endian: None,
        }
    }

    /// Feeds one parsed field to the accumulator. A rejected field leaves the
    /// accumulator exactly as it was.
    pub fn parse(&mut self, field: &Field) -> (r: Result<(), ReadNrrdErr>)
        ensures
            match spec_apply_field(old(self)@, field@) {
                Ok(acc) => r is Ok && final(self)@ == acc,
                Err(reason) => r matches Err(e) && e@ == (ErrView::Malformed { reason }),
            },
            r is Err ==> final(self)@ == old(self)@,
    {
        proof {
            reveal(spec_apply_field);
        }
        let ident = field.identifier.as_slice();
        if bytes_eq(ident, "dimension".as_bytes()) {
            self.try_parse_dimension(field)
        } else if bytes_eq(ident, "sizes".as_bytes()) {
            self.try_parse_sizes(field)
        } else if bytes_eq(ident, "type".as_bytes()) {
            self.try_parse_type(field)
        } else if bytes_eq(ident, "encoding".as_bytes()) {
            self.try_parse_encoding(field)
        } else if bytes_eq(ident, "block size".as_bytes()) || bytes_eq(
            ident,
            "blocksize".as_bytes(),
        ) {
            self.try_parse_block_size(field)
        } else if bytes_eq(ident, "endian".as_bytes()) {
            self.try_parse_endian(field)
        } else {
            Ok(())
        }
    }

    fn try_parse_dimension(&mut self, field: &Field) -> (r: Result<(), ReadNrrdErr>)
        ensures
            match spec_apply_dimension(old(self)@, field@.descriptor) {
                Ok(acc) => r is Ok && final(self)@ == acc,
                Err(reason) => r matches Err(e) && e@ == (ErrView::Malformed { reason }),
            },
            r is Err ==> final(self)@ == old(self)@,
    {
        proof {
            reveal(spec_apply_dimension);
        }
        let d = match parse_i32_exec(field.descriptor.as_slice()) {
            Some(d) => d,
            None => {
                return Err(ReadNrrdErr::Malformed { reason: MalformedReason::InvalidDimension });
            },
        };
        if d < 1 {
            return Err(ReadNrrdErr::Malformed { reason: MalformedReason::InvalidDimension });
        }
        self.dimension = Some(d);
        Ok(())
    }

    fn try_parse_type(&mut self, field: &Field) -> (r: Result<(), ReadNrrdErr>)
        ensures
            match spec_apply_type(old(self)@, field@.descriptor) {
                Ok(acc) => r is Ok && final(self)@ == acc,
                Err(reason) => r matches Err(e) && e@ == (ErrView::Malformed { reason }),
            },
            r is Err ==> final(self)@ == old(self)@,
    {
        proof {
            reveal(spec_apply_type);
        }
        let pt = match pixel_type_of(field.descriptor.as_slice()) {
            Some(pt) => pt,
            None => {
                return Err(ReadNrrdErr::Malformed { reason: MalformedReason::InvalidType });
            },
        };
        self.pixel_type = Some(pt);
        Ok(())
    }

    fn try_parse_encoding(&mut self, field: &Field) -> (r: Result<(), ReadNrrdErr>)
        ensures
            match spec_apply_encoding(old(self)@, field@.descriptor) {
                Ok(acc) => r is Ok && final(self)@ == acc,
                Err(reason) => r matches Err(e) && e@ == (ErrView::Malformed { reason }),
            },
            r is Err ==> final(self)@ == old(self)@,
    {
        proof {
            reveal(spec_apply_encoding);
        }
        self.encoding = Some(encoding_of(field.descriptor.as_slice()));
        Ok(())
    }

    fn try_parse_block_size(&mut self, field: &Field) -> (r: Result<(), ReadNrrdErr>)
        ensures
            match spec_apply_block_size(old(self)@, field@.descriptor) {
                Ok(acc) => r is Ok && final(self)@ == acc,
                Err(reason) => r matches Err(e) && e@ == (ErrView::Malformed { reason }),
            },
            r is Err ==> final(self)@ == old(self)@,
    {
        proof {
            reveal(spec_apply_block_size);
        }
        let b = match parse_i32_exec(field.descriptor.as_slice()) {
            Some(b) => b,
            None => {
                return Err(ReadNrrdErr::Malformed { reason: MalformedReason::InvalidBlockSize });
            },
        };
        self.block_size = Some(b);
        Ok(())
    }

    fn try_parse_endian(&mut self, field: &Field) -> (r: Result<(), ReadNrrdErr>)
        ensures
            match spec_apply_endian(old(self)@, field@.descriptor) {
                Ok(acc) => r is Ok && final(self)@ == acc,
                Err(reason) => r matches Err(e) && e@ == (ErrView::Malformed { reason }),
            },
            r is Err ==> final(self)@ == old(self)@,
    {
        proof {
            reveal(spec_apply_endian);
        }
        let e = match endian_of(field.descriptor.as_slice()) {
            Some(e) => e,
            None => {
                return Err(ReadNrrdErr::Malformed { reason: MalformedReason::InvalidEndian });
            },
        };
        self.endian = Some(e);
        Ok(())
    }

    fn try_parse_sizes(&mut self, field: &Field) -> (r: Result<(), ReadNrrdErr>)
        ensures
            match spec_apply_sizes(old(self)@, field@.descriptor) {
                Ok(acc) => r is Ok && final(self)@ == acc,
                Err(reason) => r matches Err(e) && e@ == (ErrView::Malformed { reason }),
            },
            r is Err ==> final(self)@ == old(self)@,
    {
        proof {
            reveal(spec_apply_sizes);
        }
        let dimension = match self.dimension {
            Some(d) => d,
            None => {
                return Err(
                    ReadNrrdErr::Malformed { reason: MalformedReason::SizesBeforeDimension },
                );
            },
        };
        let toks = split_ws_exec(field.descriptor.as_slice());
        let ghost toksv = views_of(toks@);
        let n = toks.len();
        let mut vals: Vec<i32> = Vec::new();
        let mut k: usize = 0;
        while k < n
            invariant
                k <= n == toks@.len(),
                toksv == views_of(toks@),
                toksv == split_ws(field@.descriptor),
                self@ == old(self)@,
                old(self)@.dimension == Some(dimension),
                vals@.len() == k,
                forall|j: int| 0 <= j < k ==> parse_i32(#[trigger] toksv[j]) is Some,
                forall|j: int|
                    0 <= j < k ==> vals@[j] == (match parse_i32(#[trigger] toksv[j]) {
                        Some(x) => x,
                        None => 0,
                    }),
            decreases n - k,
        {
            proof {
                assert(toksv[k as int] == toks@[k as int]@);
            }
            match parse_i32_exec(toks[k].as_slice()) {
                Some(x) => {
                    vals.push(x);
                },
                None => {
                    proof {
                        reveal(spec_apply_sizes);
                        assert(!all_tokens_parse(toksv));
                    }
                    return Err(ReadNrrdErr::Malformed { reason: MalformedReason::InvalidSizes });
                },
            }
            k = k + 1;
        }
        proof {
            reveal(spec_apply_sizes);
            assert(all_tokens_parse(toksv));
        }
        if n > 0x7fff_ffff {
            return Err(ReadNrrdErr::Malformed { reason: MalformedReason::TooManySizes });
        }
        if (n as i32) != dimension {
            return Err(ReadNrrdErr::Malformed { reason: MalformedReason::MismatchedDimensionSizes });
        }
        proof {
            assert(vals@ =~= parsed_sizes(toksv));
        }
        self.sizes = Some(vals);
        Ok(())
    }

    /// Checks the completed accumulator and hands out the validated
    /// structural values.
    pub fn validate(self) -> (r: Result<(i32, Vec<i32>, PixelType, Encoding, Endian), ReadNrrdErr>)
        ensures
            match spec_validate(self@) {
                Ok(spec) => r matches Ok(v) && v.0 == spec.0 && v.1@ == spec.1 && v.2 == spec.2
                    && v.3@ == spec.3 && v.4 == spec.4,
                Err(reason) => r matches Err(e) && e@ == (ErrView::Malformed { reason }),
            },
    {
        let dimension = match self.dimension {
            Some(d) => d,
            None => {
                return Err(ReadNrrdErr::Malformed { reason: MalformedReason::MissingDimension });
            },
        };
        let sizes = match self.sizes {
            Some(v) => v,
            None => {
                return Err(ReadNrrdErr::Malformed { reason: MalformedReason::MissingSizes });
            },
        };
        let pixel_type = match self.pixel_type {
            None => {
                return Err(ReadNrrdErr::Malformed { reason: MalformedReason::MissingType });
            },
            Some(PixelType::Block(_)) => {
                match self.block_size {
                    None => {
                        return Err(
                            ReadNrrdErr::Malformed { reason: MalformedReason::MissingBlockSize },
                        );
                    },
                    Some(b) => {
                        if b > 0 {
                            PixelType::Block(b)
                        } else {
                            return Err(
                                ReadNrrdErr::Malformed {
                                    reason: MalformedReason::InvalidBlockSize,
                                },
                            );
                        }
                    },
                }
            },
            Some(pt) => {
                if pt.size() == 1 || matches!(self.endian, Some(_)) {
                    pt
                } else {
                    return Err(ReadNrrdErr::Malformed { reason: MalformedReason::MissingEndian });
                }
            },
        };
        let encoding = match self.encoding {
            Some(e) => e,
            None => {
                return Err(ReadNrrdErr::Malformed { reason: MalformedReason::MissingEncoding });
            },
        };
        let endian = match self.endian {
            Some(e) => e,
            None => Endian::Little,
        };
        Ok((dimension, sizes, pixel_type, encoding, endian))
    }
}

/// The parser's running state: the fields and key/values collected so far,
/// and the required-field accumulator.
pub struct StateView {
    pub fields: Seq<FieldView>,
    pub key_values: Seq<KeyValueView>,
    pub acc: AccView,
}

impl StateView {
    pub open spec fn empty() -> StateView {
        StateView { fields: Seq::empty(), key_values: Seq::empty(), acc: AccView::empty() }
    }
}

/// Whether some collected field already bears this identifier.
pub open spec fn has_field(fields: Seq<FieldView>, identifier: Seq<u8>) -> bool {
    exists|k: int| 0 <= k < fields.len() && (#[trigger] fields[k]).identifier == identifier
}

/// The position of the entry with this key, if one exists.
pub open spec fn kv_index(kvs: Seq<KeyValueView>, key: Seq<u8>) -> Option<int>
    decreases kvs.len(),
{
    if kvs.len() == 0 {
        None
    } else if kvs[0].key == key {
        Some(0)
    } else {
        match kv_index(kvs.drop_first(), key) {
            Some(i) => Some(i + 1),
            None => None,
        }
    }
}

/// Key/value identity is by key alone, and a later entry replaces an earlier
/// one with the same key in place — last write wins, with no duplicate error:
/// the intended asymmetry against fields.
pub open spec fn insert_key_value(kvs: Seq<KeyValueView>, kv: KeyValueView) -> Seq<KeyValueView> {
    match kv_index(kvs, kv.key) {
        Some(i) => kvs.update(i, kv),
        None => kvs.push(kv),
    }
}

/// One body line: a `#` comment changes nothing; a field line is checked
/// against the collected identifiers (a duplicate fails, whatever its
/// descriptor) and then feeds the accumulator; any other line is a key/value
/// only at revisions that allow them, and otherwise malformed.
#[verifier::opaque]
pub open spec fn spec_classify(
    st: StateView,
    version: Version,
    line: Seq<u8>,
    line_num: int,
) -> Result<StateView, ErrView> {
    if line.len() > 0 && line[0] == HASH {
        Ok(st)
    } else {
        match spec_read_field(line) {
            Some(f) => if has_field(st.fields, f.identifier) {
                Err(ErrView::DuplicateField { identifier: f.identifier, line: line_num })
            } else {
                match spec_apply_field(st.acc, f) {
                    Ok(acc) => Ok(
                        StateView { fields: st.fields.push(f), key_values: st.key_values, acc },
                    ),
                    Err(reason) => Err(ErrView::Malformed { reason }),
                }
            },
            None => if !version.allows_key_values() {
                Err(
                    ErrView::Malformed {
                        reason: ReasonView::UnexpectedLine { line: line_num, text: line },
                    },
                )
            } else {
                match spec_read_key_value(line) {
                    Some(kv) => Ok(
                        StateView {
                            fields: st.fields,
                            key_values: insert_key_value(st.key_values, kv),
                            acc: st.acc,
                        },
                    ),
                    None => Err(
                        ErrView::Malformed {
                            reason: ReasonView::UnexpectedLine { line: line_num, text: line },
                        },
                    ),
                }
            },
        }
    }
}

/// Folds `spec_classify` over the body lines from index `i` on, stopping at
/// the first error. Line numbers are 1-based.
pub open spec fn spec_run_lines(
    st: StateView,
    version: Version,
    lines: Seq<Seq<u8>>,
    i: int,
) -> Result<StateView, ErrView>
    decreases lines.len() - i,
{
    if i < 0 || i >= lines.len() {
        Ok(st)
    } else {
        match spec_classify(st, version, lines[i], i + 1) {
            Ok(st2) => spec_run_lines(st2, version, lines, i + 1),
            Err(e) => Err(e),
        }
    }
}

/// One line of the input: the bytes before the first line feed (stripped of
/// one carriage return before it), and the rest. Without a line feed the
/// whole input is the line, kept verbatim.
pub open spec fn spec_next_line(input: Seq<u8>) -> (Seq<u8>, Seq<u8>) {
    match find_byte(input, NEWLINE) {
        Some(i) => {
            let raw = input.take(i);
            let line = if raw.len() > 0 && raw.last() == CARRIAGE_RETURN {
                raw.drop_last()
            } else {
                raw
            };
            (line, input.skip(i + 1))
        },
        None => (input, Seq::empty()),
    }
}

pub proof fn lemma_find_byte_props(s: Seq<u8>, b: u8)
    ensures
        match find_byte(s, b) {
            Some(i) => 0 <= i < s.len() && s[i] == b,
            None => true,
        },
    decreases s.len(),
{
    if s.len() > 0 && s[0] != b {
        lemma_find_byte_props(s.drop_first(), b);
    }
}

/// The body lines of the header, and the payload after them: lines accumulate
/// until an empty line (the payload is what follows it) or the end of input
/// (the payload is empty).
pub open spec fn spec_body_lines(input: Seq<u8>) -> (Seq<Seq<u8>>, Seq<u8>)
    decreases input.len(),
    via spec_body_lines_decreases
{
    if input.len() == 0 {
        (Seq::empty(), Seq::empty())
    } else {
        let (line, rest) = spec_next_line(input);
        if line.len() == 0 {
            (Seq::empty(), rest)
        } else {
            let (ls, payload) = spec_body_lines(rest);
            (seq![line] + ls, payload)
        }
    }
}

#[via_fn]
proof fn spec_body_lines_decreases(input: Seq<u8>) {
    lemma_find_byte_props(input, NEWLINE);
}

/// What parsing the whole input yields: the magic line names the revision,
/// the body lines run through the state machine, the accumulator is
/// validated, and the payload's length is checked against the declared shape
/// — `product(sizes) * byte_width(type)`, exactly.
pub open spec fn spec_read_nrrd(input: Seq<u8>) -> Result<NrrdView, ErrView> {
    let (magic, rest) = spec_next_line(input);
    match spec_magic(magic) {
        None => Err(ErrView::UnknownVersion { magic }),
        Some(version) => {
            let (lines, payload) = spec_body_lines(rest);
            match spec_run_lines(StateView::empty(), version, lines, 0) {
                Err(e) => Err(e),
                Ok(st) => match spec_validate(st.acc) {
                    Err(reason) => Err(ErrView::Malformed { reason }),
                    Ok(v) => if payload.len() == prod_i32(v.1) * size_spec(v.2) {
                        Ok(
                            NrrdView {
                                version,
                                fields: st.fields,
                                key_values: st.key_values,
                                dimension: v.0,
                                sizes: v.1,
                                pixel_type: v.2,
                                encoding: v.3,
                                endian: v.4,
                                buffer: payload,
                            },
                        )
                    } else {
                        Err(ErrView::Malformed { reason: ReasonView::BufferSizeMismatch })
                    },
                },
            }
        },
    }
}

/// Reads the line starting at `pos`: the line's bytes (terminator stripped)
/// and the position just past the terminator.
fn next_line(input: &[u8], pos: usize) -> (r: (Vec<u8>, usize))
    requires
        pos <= input@.len(),
    ensures
        r.0@ == spec_next_line(input@.skip(pos as int)).0,
        input@.skip(r.1 as int) == spec_next_line(input@.skip(pos as int)).1,
        pos <= r.1 <= input@.len(),
        r.0@.len() > 0 ==> r.1 > pos,
{
    let ghost cur = input@.skip(pos as int);
    let n = input.len();
    let mut j = pos;
    while j < n && input[j] != NEWLINE
        invariant
            pos <= j <= n == input@.len(),
            forall|t: int| pos <= t < j ==> input@[t] != NEWLINE,
        decreases n - j,
    {
        j = j + 1;
    }
    proof {
        assert(forall|t: int| 0 <= t < j - pos ==> cur[t] != NEWLINE);
        lemma_find_byte(cur, NEWLINE, j - pos);
    }
    if j < n {
        proof {
            assert(cur.take(j - pos) =~= input@.subrange(pos as int, j as int));
        }
        let end = if j > pos && input[j - 1] == CARRIAGE_RETURN {
            j - 1
        } else {
            j
        };
        let line = copy_range(input, pos, end);
        proof {
            let raw = cur.take(j - pos);
            if end < j {
                assert(raw.last() == input@[j - 1]);
                assert(raw.drop_last() =~= input@.subrange(pos as int, end as int));
            } else if j > pos {
                assert(raw.last() == input@[j - 1]);
            }
            assert(cur.skip(j - pos + 1) =~= input@.skip(j + 1));
        }
        (line, j + 1)
    } else {
        let line = copy_range(input, pos, n);
        proof {
            assert(cur =~= input@.subrange(pos as int, n as int));
            assert(input@.skip(n as int) =~= Seq::<u8>::empty());
        }
        (line, n)
    }
}

/// Whether some collected field already bears this identifier.
fn field_exists(fields: &Vec<Field>, identifier: &Vec<u8>) -> (r: bool)
    ensures
        r == has_field(fields_view(fields@), identifier@),
{
    let n = fields.len();
    let mut k: usize = 0;
    while k < n
        invariant
            k <= n == fields@.len(),
            forall|j: int|
                0 <= j < k ==> fields_view(fields@)[j].identifier != identifier@,
        decreases n - k,
    {
        if bytes_eq(fields[k].identifier.as_slice(), identifier.as_slice()) {
            proof {
                assert(fields_view(fields@)[k as int].identifier == identifier@);
            }
            return true;
        }
        k = k + 1;
    }
    false
}

/// Replaces the entry with this key, or appends: last write wins.
fn insert_key_value_exec(key_values: &mut Vec<KeyValue>, kv: KeyValue)
    ensures
        key_values_view(final(key_values)@) == insert_key_value(
            key_values_view(old(key_values)@),
            kv@,
        ),
{
    let ghost kvsv = key_values_view(key_values@);
    let n = key_values.len();
    let mut k: usize = 0;
    while k < n
        invariant
            k <= n == key_values@.len(),
            key_values@ == old(key_values)@,
            kvsv == key_values_view(key_values@),
            forall|j: int| 0 <= j < k ==> kvsv[j].key != kv@.key,
        decreases n - k,
    {
        if bytes_eq(key_values[k].key.as_slice(), kv.key.as_slice()) {
            proof {
                assert(kvsv[k as int].key == kv@.key);
                lemma_kv_index_found(kvsv, kv@.key, k as int);
            }
            key_values.remove(k);
            key_values.insert(k, kv);
            proof {
                assert(key_values_view(key_values@) =~= kvsv.update(k as int, kv@));
            }
            return ;
        }
        k = k + 1;
    }
    proof {
        lemma_kv_index_found(kvsv, kv@.key, n as int);
    }
    key_values.push(kv);
    proof {
        assert(key_values_view(key_values@) =~= kvsv.push(kv@));
    }
}

/// Whether the payload length equals `product(sizes) * pixel_size`: the
/// byte-for-byte size check applied to every record, whatever encoding it
/// declares.
fn validate_buffer_size(sizes: &Vec<i32>, pixel_size: usize, buf_len: usize) -> (r: bool)
    requires
        pixel_size >= 1,
    ensures
        r == (buf_len as int == prod_i32(sizes@) * pixel_size),
{
    let n = sizes.len();
    let mut mag: u128 = 1;
    let mut neg = false;
    let mut zero = false;
    let mut over = false;
    let mut k: usize = 0;
    while k < n
        invariant
            k <= n == sizes@.len(),
            zero ==> prod_i32(sizes@.take(k as int)) == 0,
            !zero ==> prod_i32(sizes@.take(k as int)) != 0,
            !zero && !over ==> mag as int == (if prod_i32(sizes@.take(k as int)) < 0 {
                -prod_i32(sizes@.take(k as int))
            } else {
                prod_i32(sizes@.take(k as int))
            }) && (neg <==> prod_i32(sizes@.take(k as int)) < 0),
            !zero && over ==> (if prod_i32(sizes@.take(k as int)) < 0 {
                -prod_i32(sizes@.take(k as int))
            } else {
                prod_i32(sizes@.take(k as int))
            }) > u128::MAX,
        decreases n - k,
    {
        let ghost p = prod_i32(sizes@.take(k as int));
        let x = sizes[k];
        proof {
            assert(sizes@.take(k + 1).drop_last() =~= sizes@.take(k as int));
            assert(sizes@.take(k + 1).last() == sizes@[k as int]);
        }
        let ghost pnew = prod_i32(sizes@.take(k + 1));
        proof {
            if zero {
                assert(p * x == 0) by (nonlinear_arith)
                    requires
                        p == 0,
                ;
            }
        }
        if x == 0 {
            proof {
                assert(pnew == p * 0);
                assert(p * 0 == 0) by (nonlinear_arith);
            }
            zero = true;
        } else if !zero {
            let x_abs: u128 = if x < 0 {
                (-(x as i64)) as u128
            } else {
                x as u128
            };
            let ghost ap = if p < 0 {
                -p
            } else {
                p
            };
            let ghost apnew = if pnew < 0 {
                -pnew
            } else {
                pnew
            };
            proof {
                assert(pnew == p * x);
                assert(pnew != 0 && (pnew < 0 <==> ((p < 0) != (x < 0))) && apnew == ap * (
                x_abs as int)) by (nonlinear_arith)
                    requires
                        p != 0,
                        x != 0,
                        pnew == p * x,
                        ap == (if p < 0 {
                            -p
                        } else {
                            p
                        }),
                        apnew == (if pnew < 0 {
                            -pnew
                        } else {
                            pnew
                        }),
                        x_abs as int == (if x < 0 {
                            -(x as int)
                        } else {
                            x as int
                        }),
                ;
            }
            if !over {
                match mag.checked_mul(x_abs) {
                    Some(m) => {
                        mag = m;
                    },
                    None => {
                        over = true;
                    },
                }
            } else {
                proof {
                    assert(apnew >= ap) by (nonlinear_arith)
                        requires
                            apnew == ap * (x_abs as int),
                            ap >= 0,
                            x_abs >= 1,
                    ;
                }
            }
            neg = if x < 0 {
                !neg
            } else {
                neg
            };
        }
        k = k + 1;
    }
    proof {
        assert(sizes@.take(n as int) =~= sizes@);
    }
    let ghost p = prod_i32(sizes@);
    let ghost expected = p * pixel_size;
    if zero {
        proof {
            assert(p * pixel_size == 0) by (nonlinear_arith)
                requires
                    p == 0,
            ;
        }
        return buf_len == 0;
    }
    if over {
        proof {
            assert((if expected < 0 {
                -expected
            } else {
                expected
            }) > u128::MAX) by (nonlinear_arith)
                requires
                    expected == p * pixel_size,
                    pixel_size >= 1,
                    (if p < 0 {
                        -p
                    } else {
                        p
                    }) > u128::MAX,
            ;
            assert(buf_len as int <= u128::MAX);
        }
        return false;
    }
    if neg {
        proof {
            assert(expected < 0) by (nonlinear_arith)
                requires
                    expected == p * pixel_size,
                    p < 0,
                    pixel_size >= 1,
            ;
        }
        return false;
    }
    match mag.checked_mul(pixel_size as u128) {
        Some(e) => {
            proof {
                assert(e as int == expected);
            }
            (buf_len as u128) == e
        },
        None => {
            proof {
                assert(buf_len as int <= u128::MAX);
            }
            false
        },
    }
}

/// `kv_index` finds exactly the first entry with the key: if nothing before
/// `k` matches and `k` either matches or is the end, the result is pinned.
proof fn lemma_kv_index_found(kvs: Seq<KeyValueView>, key: Seq<u8>, k: int)
    requires
        0 <= k <= kvs.len(),
        forall|j: int| 0 <= j < k ==> (#[trigger] kvs[j]).key != key,
        k < kvs.len() ==> kvs[k].key == key,
    ensures
        kv_index(kvs, key) == if k < kvs.len() {
            Some(k)
        } else {
            None::<int>
        },
    decreases kvs.len(),
{
    if kvs.len() > 0 && kvs[0].key != key {
        let t = kvs.drop_first();
        assert(forall|j: int| 0 <= j < k - 1 ==> (#[trigger] t[j]).key != key) by {
            assert(forall|j: int| 0 <= j < k - 1 ==> t[j] == kvs[j + 1]);
        }
        lemma_kv_index_found(t, key, k - 1);
    }
}



/// The parser's collected data as one value.
pub struct ParseState {
    pub fields: Vec<Field>,
    pub key_values: Vec<KeyValue>,
    pub required: RequiredFields,
}

impl View for ParseState {
    type V = StateView;

    open spec fn view(&self) -> StateView {
        StateView {
            fields: fields_view(self.fields@),
            key_values: key_values_view(self.key_values@),
            acc: self.required@,
        }
    }
}

/// What holds of the running state on every path: identifiers are unique, the
/// accumulator's `dimension` is positive and present exactly when a
/// `dimension` field was collected, and collected sizes count exactly that
/// dimension.
pub open spec fn state_inv(st: StateView) -> bool {
    &&& unique_identifiers(st.fields)
    &&& (st.acc.dimension is Some <==> has_field(st.fields, "dimension".spec_bytes()))
    &&& (st.acc.dimension matches Some(d) ==> d >= 1)
    &&& (st.acc.sizes matches Some(s) ==> st.acc.dimension matches Some(d) && s.len() == d)
}


/// What one accepted field does to the accumulator, as far as the running
/// state's invariant cares: `dimension` only ever becomes a positive value,
/// no other field touches it, and a new `sizes` value counts exactly the
/// dimension already seen.
proof fn lemma_apply_field_inv(acc: AccView, f: FieldView)
    ensures
        spec_apply_field(acc, f) matches Ok(acc2) ==> {
            &&& (f.identifier == "dimension".spec_bytes() ==> (acc2.dimension matches Some(d)
                && d >= 1) && acc2.sizes == acc.sizes)
            &&& (f.identifier != "dimension".spec_bytes() ==> acc2.dimension == acc.dimension)
            &&& (acc2.sizes == acc.sizes || (acc2.sizes matches Some(s) && acc.dimension
                matches Some(d) && s.len() == d && acc2.dimension == acc.dimension))
        },
{
    reveal(spec_apply_field);
    reveal(spec_apply_dimension);
    reveal(spec_apply_sizes);
    reveal(spec_apply_type);
    reveal(spec_apply_encoding);
    reveal(spec_apply_block_size);
    reveal(spec_apply_endian);
}

/// Every accepted line preserves the running state's invariant.
proof fn lemma_classify_inv(st: StateView, version: Version, line: Seq<u8>, line_num: int)
    requires
        state_inv(st),
    ensures
        spec_classify(st, version, line, line_num) matches Ok(st2) ==> state_inv(st2),
{
    reveal(spec_classify);
    if spec_classify(st, version, line, line_num) matches Ok(st2) {
        if !(line.len() > 0 && line[0] == HASH) {
            match spec_read_field(line) {
                Some(f) => {
                    lemma_apply_field_inv(st.acc, f);
                    let fields2 = st.fields.push(f);
                    assert(forall|k: int|
                        0 <= k < st.fields.len() ==> (#[trigger] fields2[k]) == st.fields[k]);
                    assert(fields2.last() == f);
                    if f.identifier != "dimension".spec_bytes() {
                        assert(has_field(fields2, "dimension".spec_bytes()) <==> has_field(
                            st.fields,
                            "dimension".spec_bytes(),
                        )) by {
                            if has_field(fields2, "dimension".spec_bytes()) {
                                let k = choose|k: int|
                                    0 <= k < fields2.len()
                                        && (#[trigger] fields2[k]).identifier
                                        == "dimension".spec_bytes();
                                assert(k < st.fields.len());
                                assert(st.fields[k].identifier == "dimension".spec_bytes());
                                assert(has_field(st.fields, "dimension".spec_bytes()));
                            }
                            if has_field(st.fields, "dimension".spec_bytes()) {
                                let k = choose|k: int|
                                    0 <= k < st.fields.len()
                                        && (#[trigger] st.fields[k]).identifier
                                        == "dimension".spec_bytes();
                                assert(fields2[k].identifier == "dimension".spec_bytes());
                                assert(has_field(fields2, "dimension".spec_bytes()));
                            }
                        }
                    }
                },
                None => {},
            }
        }
    }
}

/// Feeds one non-empty body line to the state, as `spec_classify` says.
#[verifier::rlimit(100)]
#[verifier::spinoff_prover]
fn process_line(st: &mut ParseState, version: Version, line: &Vec<u8>, line_num: usize) -> (r:
    Result<(), ReadNrrdErr>)
    requires
        line@.len() > 0,
    ensures
        match r {
            Ok(()) => spec_classify(old(st)@, version, line@, line_num as int) == Ok::<
                StateView,
                ErrView,
            >(final(st)@),
            Err(e) => spec_classify(old(st)@, version, line@, line_num as int) == Err::<
                StateView,
                ErrView,
            >(e@),
        },
        r is Err ==> final(st)@ == old(st)@,
{
    proof {
        reveal(spec_classify);
    }
    if line[0] == HASH {
        return Ok(());
    }
    match try_read_field(line.as_slice()) {
        Some(field) => {
            if field_exists(&st.fields, &field.identifier) {
                return Err(
                    ReadNrrdErr::DuplicateField { identifier: field.identifier, line: line_num },
                );
            }
            let ghost f = field@;
            let ghost acc0 = st.required@;
            match st.required.parse(&field) {
                Ok(()) => {},
                Err(e) => {
                    return Err(e);
                },
            }
            let ghost fpre = fields_view(st.fields@);
            st.fields.push(field);
            proof {
                assert(fields_view(st.fields@) =~= fpre.push(st.fields@.last()@));
            }
            Ok(())
        },
        None => {
            if version.number() < 2 {
                let text = copy_range(line.as_slice(), 0, line.len());
                proof {
                    assert(text@ =~= line@);
                }
                return Err(
                    ReadNrrdErr::Malformed {
                        reason: MalformedReason::UnexpectedLine { line: line_num, text },
                    },
                );
            }
            match try_read_key_value(line.as_slice()) {
                Some(kv) => {
                    insert_key_value_exec(&mut st.key_values, kv);
                    Ok(())
                },
                None => {
                    let text = copy_range(line.as_slice(), 0, line.len());
                    proof {
                        assert(text@ =~= line@);
                    }
                    Err(
                        ReadNrrdErr::Malformed {
                            reason: MalformedReason::UnexpectedLine { line: line_num, text },
                        },
                    )
                },
            }
        },
    }
}

/// Validates the accumulator, reads the payload, checks its size against the
/// declared shape, and builds the record.
fn finish_record(input: &[u8], payload_start: usize, version: Version, st: ParseState) -> (r:
    Result<Nrrd, ReadNrrdErr>)
    requires
        payload_start <= input@.len(),
        state_inv(st@),
    ensures
        ({
            let payload = input@.skip(payload_start as int);
            match spec_validate(st@.acc) {
                Err(reason) => r matches Err(e) && e@ == (ErrView::Malformed { reason }),
                Ok(v) => if payload.len() == prod_i32(v.1) * size_spec(v.2) {
                    r matches Ok(n) && n@ == (NrrdView {
                        version,
                        fields: st@.fields,
                        key_values: st@.key_values,
                        dimension: v.0,
                        sizes: v.1,
                        pixel_type: v.2,
                        encoding: v.3,
                        endian: v.4,
                        buffer: payload,
                    }) && n@.wf()
                } else {
                    r matches Err(e) && e@ == (ErrView::Malformed {
                        reason: ReasonView::BufferSizeMismatch,
                    })
                },
            }
        }),
{
    let ParseState { fields, key_values, required } = st;
    let validated = match required.validate() {
        Ok(v) => v,
        Err(e) => {
            return Err(e);
        },
    };
    let (dimension, sizes, pixel_type, encoding, endian) = validated;
    let buffer = copy_range(input, payload_start, input.len());
    proof {
        assert(buffer@ =~= input@.skip(payload_start as int));
    }
    let width = pixel_type.size();
    if !validate_buffer_size(&sizes, width, buffer.len()) {
        return Err(ReadNrrdErr::Malformed { reason: MalformedReason::BufferSizeMismatch });
    }
    Ok(Nrrd { version, fields, key_values, dimension, sizes, pixel_type, encoding, endian, buffer })
}

/// Parses a complete byte stream — header text plus trailing payload — into a
/// validated record. Returns exactly what the spec model `spec_read_nrrd`
/// says, for every input; a returned record always satisfies its
/// well-formedness invariant.
#[verifier::rlimit(100)]
#[verifier::spinoff_prover]
pub fn read_nrrd(input: &[u8]) -> (r: Result<Nrrd, ReadNrrdErr>)
    ensures
        match r {
            Ok(n) => spec_read_nrrd(input@) == Ok::<NrrdView, ErrView>(n@) && n@.wf(),
            Err(e) => spec_read_nrrd(input@) == Err::<NrrdView, ErrView>(e@),
        },
{
    proof {
        assert(input@.skip(0) =~= input@);
    }
    let (magic, magic_end) = next_line(input, 0);
    let version = match try_read_magic(magic.as_slice()) {
        Ok(v) => v,
        Err(e) => {
            return Err(e);
        },
    };
    let ghost rest0 = input@.skip(magic_end as int);
    let ghost all_lines = spec_body_lines(rest0).0;
    let ghost payload_spec = spec_body_lines(rest0).1;

    let mut st = ParseState {
        fields: Vec::new(),
        key_values: Vec::new(),
        required: RequiredFields::new(),
    };
    let mut line_num: usize = 0;
    let mut pos = magic_end;
    let ghost st0 = StateView::empty();
    proof {
        assert(fields_view(st.fields@) =~= Seq::<FieldView>::empty());
        assert(key_values_view(st.key_values@) =~= Seq::<KeyValueView>::empty());
        assert(st@ == st0);
    }

    loop
        invariant
            st0 == StateView::empty(),
            line_num <= pos <= input@.len(),
            spec_magic(spec_next_line(input@).0) == Some(version),
            spec_next_line(input@).1 == rest0,
            rest0 == input@.skip(magic_end as int),
            all_lines == spec_body_lines(rest0).0,
            payload_spec == spec_body_lines(rest0).1,
            all_lines.skip(line_num as int) == spec_body_lines(input@.skip(pos as int)).0,
            payload_spec == spec_body_lines(input@.skip(pos as int)).1,
            line_num <= all_lines.len(),
            spec_run_lines(st0, version, all_lines, 0) == spec_run_lines(
                st@,
                version,
                all_lines,
                line_num as int,
            ),
            state_inv(st@),
        decreases input@.len() - pos,
    {
        let (line, newpos) = next_line(input, pos);
        if line.len() == 0 {
            // End of the header: at an empty line the payload follows; at end
            // of input there is none.
            proof {
                assert(all_lines.skip(line_num as int) =~= Seq::<Seq<u8>>::empty());
                assert(line_num == all_lines.len());
            }
            return finish_record(input, newpos, version, st);
        }
        line_num = line_num + 1;
        let ghost lnum = line_num as int;
        proof {
            assert(input@.skip(pos as int).len() > 0);
            assert(spec_body_lines(input@.skip(pos as int)).0 == seq![line@] + spec_body_lines(
                input@.skip(newpos as int),
            ).0);
            assert(all_lines.skip(lnum - 1) == seq![line@] + spec_body_lines(
                input@.skip(newpos as int),
            ).0);
            assert(all_lines.skip(lnum - 1)[0] == line@);
            assert(all_lines[lnum - 1] == line@);
            assert(all_lines.skip(lnum - 1).drop_first() =~= all_lines.skip(lnum));
            assert((seq![line@] + spec_body_lines(input@.skip(newpos as int)).0).drop_first()
                =~= spec_body_lines(input@.skip(newpos as int)).0);
        }
        let ghost pre_st = st@;
        match process_line(&mut st, version, &line, line_num) {
            Ok(()) => {
                proof {
                    lemma_classify_inv(pre_st, version, line@, lnum);
                    assert(lnum - 1 < all_lines.len());
                    assert(spec_run_lines(pre_st, version, all_lines, lnum - 1)
                        == spec_run_lines(st@, version, all_lines, lnum));
                }
            },
            Err(e) => {
                proof {
                    assert(lnum - 1 < all_lines.len());
                    assert(spec_classify(pre_st, version, all_lines[lnum - 1], lnum) == Err::<
                        StateView,
                        ErrView,
                    >(e@));
                    assert(spec_run_lines(pre_st, version, all_lines, lnum - 1) == Err::<
                        StateView,
                        ErrView,
                    >(e@));
                    assert(spec_run_lines(st0, version, all_lines, 0) == spec_run_lines(
                        pre_st,
                        version,
                        all_lines,
                        lnum - 1,
                    ));
                    assert(spec_run_lines(st0, version, all_lines, 0) == Err::<
                        StateView,
                        ErrView,
                    >(e@));
                    assert(spec_read_nrrd(input@) == Err::<NrrdView, ErrView>(e@));
                }
                return Err(e);
            },
        }
        pos = newpos;
    }
}


/// Law: with the dimension declared and every token an integer, a `sizes`
/// field is accepted exactly when its token count equals the dimension, and a
/// mismatched count fails with the dimension/sizes mismatch case.
pub proof fn lemma_sizes_dimension_law(acc: AccView, desc: Seq<u8>, d: i32)
    requires
        acc.dimension == Some(d),
        all_tokens_parse(split_ws(desc)),
        split_ws(desc).len() <= i32::MAX,
    ensures
        split_ws(desc).len() == d ==> spec_apply_sizes(acc, desc) == Ok::<AccView, ReasonView>(
            AccView { sizes: Some(parsed_sizes(split_ws(desc))), ..acc },
        ),
        split_ws(desc).len() != d ==> spec_apply_sizes(acc, desc) == Err::<AccView, ReasonView>(
            ReasonView::MismatchedDimensionSizes,
        ),
{
    reveal(spec_apply_sizes);
}

/// Law: a field line whose identifier was already declared always fails with
/// `DuplicateField` naming the identifier and the line, whatever either
/// descriptor holds.
pub proof fn lemma_duplicate_field_law(
    st: StateView,
    version: Version,
    line: Seq<u8>,
    line_num: int,
)
    requires
        !(line.len() > 0 && line[0] == HASH),
        spec_read_field(line) matches Some(f) && has_field(st.fields, f.identifier),
    ensures
        spec_classify(st, version, line, line_num) == Err::<StateView, ErrView>(
            ErrView::DuplicateField {
                identifier: (spec_read_field(line)->0).identifier,
                line: line_num,
            },
        ),
{
    reveal(spec_classify);
}

/// Law: final validation names the field at fault — a header missing `type`
/// fails with the missing-type case, a `Block` type missing `block size` with
/// the missing-block-size case, and a non-block multi-byte type missing
/// `endian` with the missing-endian case.
pub proof fn lemma_missing_field_law(acc: AccView)
    requires
        acc.dimension is Some,
        acc.sizes is Some,
    ensures
        acc.pixel_type is None ==> spec_validate(acc) == Err::<
            (i32, Seq<i32>, PixelType, EncodingView, Endian),
            ReasonView,
        >(ReasonView::MissingType),
        (acc.pixel_type matches Some(pt) && pt is Block && acc.block_size is None)
            ==> spec_validate(acc) == Err::<
            (i32, Seq<i32>, PixelType, EncodingView, Endian),
            ReasonView,
        >(ReasonView::MissingBlockSize),
        (acc.pixel_type matches Some(pt) && !(pt is Block) && size_spec(pt) != 1
            && acc.endian is None) ==> spec_validate(acc) == Err::<
            (i32, Seq<i32>, PixelType, EncodingView, Endian),
            ReasonView,
        >(ReasonView::MissingEndian),
{
}

} // verus!
