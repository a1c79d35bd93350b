//! Construction of the header dictionary text: the `descr` field list, the
//! `fortran_order` flag, the reserved row-count placeholder, and the space
//! padding that aligns the data region to a multiple of 16 bytes.

use vstd::prelude::*;
use vstd::utf8::{is_ascii_chars, is_ascii_chars_encode_utf8};
use crate::Error;
use crate::bytes::{text_bytes, push_str_bytes, push_repeat};
use crate::digits::{dec_digits, dec_digits_vec};
use crate::record::FieldDescr;
use crate::scalar::spec_tag_chars;

verus! {

/// The number of bytes reserved for the row-count digits.
pub const PLACEHOLDER_WIDTH: usize = 19;

/// The shape extents as written inside a field's descr tuple: each extent's
/// decimal digits followed by a comma.
pub open spec fn spec_shape_text(shape: Seq<usize>) -> Seq<u8>
    decreases shape.len(),
{
    if shape.len() == 0 {
        Seq::empty()
    } else {
        dec_digits(shape[0] as nat) + text_bytes(","@) + spec_shape_text(shape.skip(1))
    }
}

/// One field's descr tuple: `('name', 'tag'), ` for a scalar field,
/// `('name', 'tag', (d0,d1,)), ` for an array field.
pub open spec fn spec_descr_entry(f: FieldDescr) -> Seq<u8> {
    if f.shape@.len() == 0 {
        text_bytes("('"@) + text_bytes(f.name@) + text_bytes("', '"@) + text_bytes(
            spec_tag_chars(f.kind),
        ) + text_bytes("'), "@)
    } else {
        text_bytes("('"@) + text_bytes(f.name@) + text_bytes("', '"@) + text_bytes(
            spec_tag_chars(f.kind),
        ) + text_bytes("', ("@) + spec_shape_text(f.shape@) + text_bytes(")), "@)
    }
}

/// The descr tuples of all fields, in declared order.
pub open spec fn spec_descr(fields: Seq<FieldDescr>) -> Seq<u8>
    decreases fields.len(),
{
    if fields.len() == 0 {
        Seq::empty()
    } else {
        spec_descr_entry(fields[0]) + spec_descr(fields.skip(1))
    }
}

/// The header text up to and including `'shape': (`: the row-count digits
/// are written immediately after these bytes.
pub open spec fn spec_header_prefix(fields: Seq<FieldDescr>) -> Seq<u8> {
    text_bytes("{'descr': ["@) + spec_descr(fields) + text_bytes(
        "], 'fortran_order': False, 'shape': ("@,
    )
}

/// The reserved row-count placeholder, as first written.
pub open spec fn spec_filler() -> Seq<u8> {
    Seq::new(PLACEHOLDER_WIDTH as nat, |k: int| 0x2au8)
}

/// The text closing the header dictionary after the row count.
pub open spec fn spec_closing() -> Seq<u8> {
    text_bytes(",), }"@)
}

/// The header dictionary text before padding.
pub open spec fn spec_header_unpadded(fields: Seq<FieldDescr>) -> Seq<u8> {
    spec_header_prefix(fields) + spec_filler() + spec_closing()
}

/// The full header text: dictionary, space padding, and one final newline,
/// sized so that the 10 preamble bytes plus the text are a multiple of 16.
pub open spec fn spec_header_text(fields: Seq<FieldDescr>) -> Seq<u8> {
    let u = spec_header_unpadded(fields);
    u + Seq::new((15 - ((u.len() + 10) % 16)) as nat, |k: int| 0x20u8) + seq![0x0au8]
}

/// The value of the 2-byte header length field.
pub open spec fn spec_header_len(fields: Seq<FieldDescr>) -> nat {
    spec_header_text(fields).len()
}

/// The stream offset where the row-count digits are written: the 10
/// preamble bytes plus the header prefix.
pub open spec fn spec_shape_pos(fields: Seq<FieldDescr>) -> nat {
    10 + spec_header_prefix(fields).len()
}

/// The closing text is five ASCII bytes: `,), }`.
pub proof fn lemma_closing_bytes()
    ensures
        spec_closing() =~= seq![0x2cu8, 0x29u8, 0x2cu8, 0x20u8, 0x7du8],
{
    reveal_strlit(",), }");
    let s = ",), }"@;
    assert(s.len() == 5);
    assert(is_ascii_chars(s)) by {
        assert forall|i: int| 0 <= i < s.len() implies '\0' <= #[trigger] s[i] <= '\u{7f}' by {
            if i == 0 {
            } else if i == 1 {
            } else if i == 2 {
            } else if i == 3 {
            } else {
                assert(i == 4);
            }
        }
    }
    is_ascii_chars_encode_utf8(s);
}

/// How the header text decomposes around the placeholder, and the alignment
/// of the data region: the preamble plus the header text is a multiple of
/// 16 bytes, and the placeholder and closing text lie whole inside it.
pub proof fn lemma_header_shape(fields: Seq<FieldDescr>)
    ensures
        spec_header_len(fields) == spec_header_prefix(fields).len() + 24 + (15 - ((
        spec_header_prefix(fields).len() + 34) % 16)) + 1,
        (10 + spec_header_len(fields)) % 16 == 0,
        spec_shape_pos(fields) + 24 <= 10 + spec_header_len(fields),
        spec_header_text(fields).take(spec_header_prefix(fields).len() as int)
            == spec_header_prefix(fields),
        spec_header_text(fields).subrange(
            spec_header_prefix(fields).len() as int,
            spec_header_prefix(fields).len() as int + 24,
        ) == spec_filler() + spec_closing(),
{
    lemma_closing_bytes();
    let p = spec_header_prefix(fields);
    let u = spec_header_unpadded(fields);
    let t = spec_header_text(fields);
    assert(u.len() == p.len() + 24);
    assert(t.take(p.len() as int) =~= p);
    assert(t.subrange(p.len() as int, p.len() as int + 24) =~= spec_filler() + spec_closing());
}

pub proof fn lemma_shape_text_snoc(shape: Seq<usize>, d: usize)
    ensures
        spec_shape_text(shape.push(d)) == spec_shape_text(shape) + dec_digits(d as nat)
            + text_bytes(","@),
    decreases shape.len(),
{
    reveal_with_fuel(spec_shape_text, 3);
    if shape.len() == 0 {
        assert(shape.push(d) =~= seq![d]);
        assert(seq![d].skip(1) =~= Seq::<usize>::empty());
        assert(dec_digits(d as nat) + text_bytes(","@) + Seq::<u8>::empty() =~= dec_digits(
            d as nat,
        ) + text_bytes(","@));
        assert(spec_shape_text(shape) + dec_digits(d as nat) + text_bytes(","@) =~= dec_digits(
            d as nat,
        ) + text_bytes(","@));
    } else {
        lemma_shape_text_snoc(shape.skip(1), d);
        assert(shape.push(d)[0] == shape[0]);
        assert(shape.push(d).skip(1) =~= shape.skip(1).push(d));
        assert(dec_digits(shape[0] as nat) + text_bytes(","@) + (spec_shape_text(shape.skip(1))
            + dec_digits(d as nat) + text_bytes(","@)) =~= (dec_digits(shape[0] as nat)
            + text_bytes(","@) + spec_shape_text(shape.skip(1))) + dec_digits(d as nat)
            + text_bytes(","@));
    }
}

pub proof fn lemma_descr_snoc(fields: Seq<FieldDescr>, f: FieldDescr)
    ensures
        spec_descr(fields.push(f)) == spec_descr(fields) + spec_descr_entry(f),
    decreases fields.len(),
{
    reveal_with_fuel(spec_descr, 3);
    if fields.len() == 0 {
        assert(fields.push(f) =~= seq![f]);
        assert(seq![f].skip(1) =~= Seq::<FieldDescr>::empty());
        assert(spec_descr_entry(f) + Seq::<u8>::empty() =~= spec_descr_entry(f));
        assert(spec_descr(fields) + spec_descr_entry(f) =~= spec_descr_entry(f));
    } else {
        lemma_descr_snoc(fields.skip(1), f);
        assert(fields.push(f)[0] == fields[0]);
        assert(fields.push(f).skip(1) =~= fields.skip(1).push(f));
        assert(spec_descr_entry(fields[0]) + (spec_descr(fields.skip(1)) + spec_descr_entry(f))
            =~= (spec_descr_entry(fields[0]) + spec_descr(fields.skip(1))) + spec_descr_entry(f));
    }
}

/// Appends one field's descr tuple to `out`.
fn push_descr_entry(out: &mut Vec<u8>, f: &FieldDescr)
    ensures
        final(out)@ == old(out)@ + spec_descr_entry(*f),
{
    push_str_bytes(out, "('");
    push_str_bytes(out, f.name.as_str());
    push_str_bytes(out, "', '");
    push_str_bytes(out, f.kind.type_tag());
    if f.shape.len() == 0 {
        push_str_bytes(out, "'), ");
        proof {
            assert(out@ =~= old(out)@ + spec_descr_entry(*f));
        }
    } else {
        push_str_bytes(out, "', (");
        let ghost base = out@;
        let mut j: usize = 0;
        proof {
            assert(f.shape@.take(0) =~= Seq::<usize>::empty());
            assert(base + spec_shape_text(f.shape@.take(0)) =~= base);
        }
        while j < f.shape.len()
            invariant
                j <= f.shape@.len(),
                out@ == base + spec_shape_text(f.shape@.take(j as int)),
            decreases f.shape@.len() - j,
        {
            let mut d = dec_digits_vec(f.shape[j] as u64);
            out.append(&mut d);
            push_str_bytes(out, ",");
            j = j + 1;
            proof {
                assert(f.shape@.take(j as int) =~= f.shape@.take(j - 1).push(f.shape@[j - 1]));
                lemma_shape_text_snoc(f.shape@.take(j - 1), f.shape@[j - 1]);
                assert(out@ =~= base + spec_shape_text(f.shape@.take(j as int)));
            }
        }
        push_str_bytes(out, ")), ");
        proof {
            assert(f.shape@.take(f.shape@.len() as int) =~= f.shape@);
            assert(out@ =~= old(out)@ + spec_descr_entry(*f));
        }
    }
}

/// Builds the full header text for the given fields and returns it together
/// with the offset of the row-count placeholder within the text.
///
/// Fails exactly when the assembled text would not fit the 2-byte length
/// field of the preamble.
pub fn build_header_text(fields: &Vec<FieldDescr>) -> (r: Result<(Vec<u8>, usize), Error>)
    ensures
        r matches Ok(p) ==> p.0@ == spec_header_text(fields@) && p.1 as nat == spec_header_prefix(
            fields@,
        ).len() && spec_header_len(fields@) <= 65535,
        r is Err <==> spec_header_len(fields@) > 65535,
        r is Err ==> r == Result::<(Vec<u8>, usize), Error>::Err(Error::HeaderTooLong),
{
    let mut t: Vec<u8> = Vec::new();
    push_str_bytes(&mut t, "{'descr': [");
    let ghost lit = text_bytes("{'descr': ["@);
    let mut i: usize = 0;
    proof {
        assert(fields@.take(0) =~= Seq::<FieldDescr>::empty());
        assert(lit + spec_descr(fields@.take(0)) =~= lit);
    }
    while i < fields.len()
        invariant
            i <= fields@.len(),
            t@ == lit + spec_descr(fields@.take(i as int)),
        decreases fields@.len() - i,
    {
        push_descr_entry(&mut t, &fields[i]);
        i = i + 1;
        proof {
            assert(fields@.take(i as int) =~= fields@.take(i - 1).push(fields@[i - 1]));
            lemma_descr_snoc(fields@.take(i - 1), fields@[i - 1]);
            assert(t@ =~= lit + spec_descr(fields@.take(i as int)));
        }
    }
    proof {
        assert(fields@.take(fields@.len() as int) =~= fields@);
    }
    push_str_bytes(&mut t, "], 'fortran_order': False, 'shape': (");
    let prefix_len = t.len();
    proof {
        assert(t@ =~= spec_header_prefix(fields@));
    }
    push_repeat(&mut t, 0x2a, PLACEHOLDER_WIDTH);
    push_str_bytes(&mut t, ",), }");
    proof {
        assert(t@ =~= spec_header_unpadded(fields@));
        lemma_header_shape(fields@);
    }
    if t.len() > 65535 {
        return Err(Error::HeaderTooLong);
    }
    let u = t.len();
    let pad: usize = 15 - ((u + 10) % 16);
    push_repeat(&mut t, 0x20, pad);
    t.push(0x0a);
    proof {
        assert(t@ =~= spec_header_text(fields@));
    }
    if t.len() > 65535 {
        return Err(Error::HeaderTooLong);
    }
    Ok((t, prefix_len))
}

} // verus!
