//! The wire-format writer: serializes a record as the magic line, its fields
//! in the required priority order (`type`, `dimension`, `sizes` first, then
//! the rest in stored order), its key/value lines, one blank line, and the
//! raw payload bytes verbatim — with no trailing newline after the payload.
//!
//! The writer re-derives and re-validates nothing: it is a pure serializer
//! over whatever record it is given, and emits the newest revision's magic
//! line.

use vstd::prelude::*;

verus! {

use vstd::string::StringSliceAdditionalSpecFns;
use crate::header::{Field, FieldView, KeyValueView, Nrrd, NrrdView, fields_view, key_values_view};
use crate::text::{COLON, SPACE, EQUALS, NEWLINE, bytes_eq};

/// One serialized field line: `<identifier>: <descriptor>` and a line feed.
pub open spec fn field_line(f: FieldView) -> Seq<u8> {
    f.identifier + seq![COLON, SPACE] + f.descriptor + seq![NEWLINE]
}

/// One serialized key/value line: `<key>:=<value>` and a line feed.
pub open spec fn key_value_line(kv: KeyValueView) -> Seq<u8> {
    kv.key + seq![COLON, EQUALS] + kv.value + seq![NEWLINE]
}

/// The serialized lines of a list of fields, in order.
pub open spec fn field_lines(fields: Seq<FieldView>) -> Seq<u8>
    decreases fields.len(),
{
    if fields.len() == 0 {
        Seq::empty()
    } else {
        field_lines(fields.drop_last()) + field_line(fields.last())
    }
}

/// The serialized lines of a list of key/values, in order.
pub open spec fn key_value_lines(kvs: Seq<KeyValueView>) -> Seq<u8>
    decreases kvs.len(),
{
    if kvs.len() == 0 {
        Seq::empty()
    } else {
        key_value_lines(kvs.drop_last()) + key_value_line(kvs.last())
    }
}

/// The fields bearing one identifier, in stored order.
pub open spec fn fields_named(fields: Seq<FieldView>, ident: Seq<u8>) -> Seq<FieldView>
    decreases fields.len(),
{
    if fields.len() == 0 {
        Seq::empty()
    } else {
        fields_named(fields.drop_last(), ident) + (if fields.last().identifier == ident {
            seq![fields.last()]
        } else {
            Seq::empty()
        })
    }
}

/// Whether an identifier is one of the three the writer puts first.
pub open spec fn is_priority_ident(ident: Seq<u8>) -> bool {
    ident == "type".spec_bytes() || ident == "dimension".spec_bytes() || ident
        == "sizes".spec_bytes()
}

/// The fields that are not priority fields, in stored order.
pub open spec fn fields_other(fields: Seq<FieldView>) -> Seq<FieldView>
    decreases fields.len(),
{
    if fields.len() == 0 {
        Seq::empty()
    } else {
        fields_other(fields.drop_last()) + (if !is_priority_ident(fields.last().identifier) {
            seq![fields.last()]
        } else {
            Seq::empty()
        })
    }
}

/// The fields in the order the writer emits them: `type`, `dimension` and
/// `sizes` first, in that order and when present, then all remaining fields
/// in stored order.
pub open spec fn ordered_fields(fields: Seq<FieldView>) -> Seq<FieldView> {
    fields_named(fields, "type".spec_bytes()) + fields_named(fields, "dimension".spec_bytes())
        + fields_named(fields, "sizes".spec_bytes()) + fields_other(fields)
}

/// The full wire image of a record: magic line, field lines in priority
/// order, key/value lines, a blank line, then the payload verbatim.
pub open spec fn spec_write_nrrd(n: NrrdView) -> Seq<u8> {
    "NRRD0005".spec_bytes() + seq![NEWLINE] + field_lines(ordered_fields(n.fields))
        + key_value_lines(n.key_values) + seq![NEWLINE] + n.buffer
}

/// Serialization distributes over concatenation of field lists.
proof fn lemma_field_lines_concat(a: Seq<FieldView>, b: Seq<FieldView>)
    ensures
        field_lines(a + b) == field_lines(a) + field_lines(b),
    decreases b.len(),
{
    if b.len() == 0 {
        assert(a + b =~= a);
        assert(field_lines(a) + field_lines(b) =~= field_lines(a));
    } else {
        lemma_field_lines_concat(a, b.drop_last());
        assert((a + b).drop_last() =~= a + b.drop_last());
        assert((a + b).last() == b.last());
        assert(field_lines(a) + field_lines(b) =~= (field_lines(a) + field_lines(b.drop_last()))
            + field_line(b.last()));
    }
}

/// Appends the bytes of `b` to `out`.
fn push_bytes(out: &mut Vec<u8>, b: &[u8])
    ensures
        final(out)@ == old(out)@ + b@,
{
    let n = b.len();
    let mut i: usize = 0;
    while i < n
        invariant
            i <= n == b@.len(),
            out@ == old(out)@ + b@.take(i as int),
        decreases n - i,
    {
        out.push(b[i]);
        proof {
            assert(old(out)@ + b@.take(i + 1) =~= (old(out)@ + b@.take(i as int)).push(
                b@[i as int],
            ));
        }
        i = i + 1;
    }
    proof {
        assert(b@.take(n as int) =~= b@);
    }
}

/// Appends one field line.
fn push_field_line(out: &mut Vec<u8>, f: &Field)
    ensures
        final(out)@ == old(out)@ + field_line(f@),
{
    let ghost start = out@;
    push_bytes(out, f.identifier.as_slice());
    out.push(COLON);
    out.push(SPACE);
    push_bytes(out, f.descriptor.as_slice());
    out.push(NEWLINE);
    proof {
        assert(out@ =~= start + field_line(f@));
    }
}

/// Serializes a record into wire bytes, exactly as `spec_write_nrrd` lays
/// them out.
pub fn write_nrrd(nrrd: &Nrrd) -> (r: Vec<u8>)
    ensures
        r@ == spec_write_nrrd(nrrd@),
{
    let mut out: Vec<u8> = Vec::new();
    push_bytes(&mut out, "NRRD0005".as_bytes());
    out.push(NEWLINE);
    proof {
        assert(out@ =~= "NRRD0005".spec_bytes() + seq![NEWLINE]);
    }
    let ghost head = out@;
    let ghost fv = fields_view(nrrd.fields@);

    push_named(&mut out, &nrrd.fields, "type");
    push_named(&mut out, &nrrd.fields, "dimension");
    push_named(&mut out, &nrrd.fields, "sizes");
    proof {
        assert(out@ == head + field_lines(fields_named(fv, "type".spec_bytes())) + field_lines(
            fields_named(fv, "dimension".spec_bytes()),
        ) + field_lines(fields_named(fv, "sizes".spec_bytes())));
    }

    // the remaining fields, in stored order
    let n = nrrd.fields.len();
    let ghost mid = out@;
    let mut i: usize = 0;
    while i < n
        invariant
            i <= n == nrrd.fields@.len(),
            fv == fields_view(nrrd.fields@),
            out@ == mid + field_lines(fields_other(fv.take(i as int))),
        decreases n - i,
    {
        let f = &nrrd.fields[i];
        let keep = !(bytes_eq(f.identifier.as_slice(), "type".as_bytes()) || bytes_eq(
            f.identifier.as_slice(),
            "dimension".as_bytes(),
        ) || bytes_eq(f.identifier.as_slice(), "sizes".as_bytes()));
        proof {
            assert(fv.take(i + 1).drop_last() =~= fv.take(i as int));
            assert(fv.take(i + 1).last() == fv[i as int]);
        }
        if keep {
            push_field_line(&mut out, f);
            proof {
                assert(field_lines(fields_other(fv.take(i + 1))) =~= field_lines(
                    fields_other(fv.take(i as int)),
                ) + field_line(fv[i as int])) by {
                    assert(fields_other(fv.take(i + 1)).drop_last() =~= fields_other(
                        fv.take(i as int),
                    ));
                }
                assert(out@ =~= mid + field_lines(fields_other(fv.take(i + 1))));
            }
        } else {
            proof {
                assert(fields_other(fv.take(i + 1)) =~= fields_other(fv.take(i as int)));
            }
        }
        i = i + 1;
    }
    proof {
        assert(fv.take(n as int) =~= fv);
    }

    // key/value lines, in stored order
    let m = nrrd.key_values.len();
    let ghost kvv = key_values_view(nrrd.key_values@);
    let ghost kv_start = out@;
    let mut j: usize = 0;
    while j < m
        invariant
            j <= m == nrrd.key_values@.len(),
            kvv == key_values_view(nrrd.key_values@),
            out@ == kv_start + key_value_lines(kvv.take(j as int)),
        decreases m - j,
    {
        let ghost before = out@;
        let kv = &nrrd.key_values[j];
        push_bytes(&mut out, kv.key.as_slice());
        out.push(COLON);
        out.push(EQUALS);
        push_bytes(&mut out, kv.value.as_slice());
        out.push(NEWLINE);
        proof {
            assert(kvv.take(j + 1).drop_last() =~= kvv.take(j as int));
            assert(kvv.take(j + 1).last() == kvv[j as int]);
            assert(out@ =~= before + key_value_line(kvv[j as int]));
            assert(out@ =~= kv_start + key_value_lines(kvv.take(j + 1)));
        }
        j = j + 1;
    }
    proof {
        assert(kvv.take(m as int) =~= kvv);
    }

    // blank separator line, then the payload verbatim
    out.push(NEWLINE);
    push_bytes(&mut out, nrrd.buffer.as_slice());
    proof {
        let t = fields_named(fv, "type".spec_bytes());
        let d = fields_named(fv, "dimension".spec_bytes());
        let z = fields_named(fv, "sizes".spec_bytes());
        let o = fields_other(fv);
        lemma_field_lines_concat(t, d);
        lemma_field_lines_concat(t + d, z);
        lemma_field_lines_concat(t + d + z, o);
        assert(ordered_fields(fv) == t + d + z + o);
        assert(field_lines(ordered_fields(fv)) == field_lines(t) + field_lines(d) + field_lines(z)
            + field_lines(o));
        assert(out@ =~= spec_write_nrrd(nrrd@));
    }
    out
}

/// Appends the lines of every field bearing this identifier, in stored order.
fn push_named(out: &mut Vec<u8>, fields: &Vec<Field>, ident: &str)
    ensures
        final(out)@ == old(out)@ + field_lines(
            fields_named(fields_view(fields@), ident.spec_bytes()),
        ),
{
    let ghost fv = fields_view(fields@);
    let ghost idb = ident.spec_bytes();
    let n = fields.len();
    let mut i: usize = 0;
    while i < n
        invariant
            i <= n == fields@.len(),
            fv == fields_view(fields@),
            idb == ident.spec_bytes(),
            out@ == old(out)@ + field_lines(fields_named(fv.take(i as int), idb)),
        decreases n - i,
    {
        proof {
            assert(fv.take(i + 1).drop_last() =~= fv.take(i as int));
            assert(fv.take(i + 1).last() == fv[i as int]);
        }
        if bytes_eq(fields[i].identifier.as_slice(), ident.as_bytes()) {
            push_field_line(out, &fields[i]);
            proof {
                assert(field_lines(fields_named(fv.take(i + 1), idb)) =~= field_lines(
                    fields_named(fv.take(i as int), idb),
                ) + field_line(fv[i as int])) by {
                    assert(fields_named(fv.take(i + 1), idb).drop_last() =~= fields_named(
                        fv.take(i as int),
                        idb,
                    ));
                }
                assert(out@ =~= old(out)@ + field_lines(fields_named(fv.take(i + 1), idb)));
            }
        } else {
            proof {
                assert(fields_named(fv.take(i + 1), idb) =~= fields_named(fv.take(i as int), idb));
            }
        }
        i = i + 1;
    }
    proof {
        assert(fv.take(n as int) =~= fv);
    }
}

} // verus!
