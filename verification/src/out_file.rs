//! The streaming writer: emits the preamble and header first, appends rows
//! one at a time, and on close overwrites the reserved placeholder with the
//! decimal row count. The writer owns the produced bytes; delivering them to
//! a file or another sink is the caller's business.

use vstd::prelude::*;
use byteorder::ByteOrder;
use crate::Error;
use crate::bytes::{le_bytes, lemma_le_bytes_len, push_str_bytes, write_at};
use crate::digits::{dec_digits, dec_digits_vec, is_digit, spec_parse_count_at,
    lemma_dec_digits_are_digits, lemma_dec_digits_value, lemma_digit_run_of_digits};
use crate::header::{PLACEHOLDER_WIDTH, spec_header_len, spec_header_text, spec_shape_pos,
    spec_closing, spec_filler, lemma_closing_bytes, lemma_header_shape, build_header_text};
use crate::record::{RecordType, FieldDescr, row_matches, spec_encode_row, spec_row_width};
use crate::scalar::Scalar;

verus! {

/// The fixed 10 preamble bytes before the header length's value counts:
/// the magic byte, the magic text, and the format version pair.
pub open spec fn spec_preamble() -> Seq<u8> {
    seq![0x93u8, 0x4eu8, 0x55u8, 0x4du8, 0x50u8, 0x59u8, 0x01u8, 0x00u8]
}

/// The whole stream as first written: preamble, little-endian header
/// length, header text with its placeholder still unpatched.
pub open spec fn spec_file_prefix(fields: Seq<FieldDescr>) -> Seq<u8> {
    spec_preamble() + le_bytes(spec_header_len(fields), 2) + spec_header_text(fields)
}

/// The encodings of a sequence of rows, back to back, in push order.
pub open spec fn spec_encode_rows(rows: Seq<Seq<Seq<Scalar>>>) -> Seq<u8>
    decreases rows.len(),
{
    if rows.len() == 0 {
        Seq::empty()
    } else {
        spec_encode_row(rows[0]) + spec_encode_rows(rows.skip(1))
    }
}

/// The 24 bytes written over the placeholder region at finalization: the
/// decimal row count, the closing text, and trailing spaces out to the
/// region's width, so the file's length does not change.
pub open spec fn spec_patch(n: nat) -> Seq<u8>
    recommends
        dec_digits(n).len() <= PLACEHOLDER_WIDTH,
{
    dec_digits(n) + spec_closing() + Seq::new(
        (PLACEHOLDER_WIDTH - dec_digits(n).len()) as nat,
        |k: int| 0x20u8,
    )
}

/// A finished file: the first written stream with the placeholder region
/// overwritten by the row-count patch, followed by the encoded rows.
pub open spec fn spec_file_bytes(fields: Seq<FieldDescr>, rows: Seq<Seq<Seq<Scalar>>>) -> Seq<
    u8,
> {
    let fp = spec_file_prefix(fields);
    let sp = spec_shape_pos(fields) as int;
    fp.take(sp) + spec_patch(rows.len()) + fp.skip(sp + 24) + spec_encode_rows(rows)
}

pub proof fn lemma_encode_rows_snoc(rows: Seq<Seq<Seq<Scalar>>>, row: Seq<Seq<Scalar>>)
    ensures
        spec_encode_rows(rows.push(row)) == spec_encode_rows(rows) + spec_encode_row(row),
    decreases rows.len(),
{
    reveal_with_fuel(spec_encode_rows, 3);
    if rows.len() == 0 {
        assert(rows.push(row) =~= seq![row]);
        assert(seq![row].skip(1) =~= Seq::<Seq<Seq<Scalar>>>::empty());
        assert(spec_encode_row(row) + Seq::<u8>::empty() =~= spec_encode_row(row));
        assert(spec_encode_rows(rows) + spec_encode_row(row) =~= spec_encode_row(row));
    } else {
        lemma_encode_rows_snoc(rows.skip(1), row);
        assert(rows.push(row)[0] == rows[0]);
        assert(rows.push(row).skip(1) =~= rows.skip(1).push(row));
        assert(spec_encode_row(rows[0]) + (spec_encode_rows(rows.skip(1)) + spec_encode_row(row))
            =~= (spec_encode_row(rows[0]) + spec_encode_rows(rows.skip(1))) + spec_encode_row(
            row,
        ));
    }
}

/// The first written stream is the 10 preamble bytes plus the header text,
/// and the placeholder region lies whole inside it.
pub proof fn lemma_file_prefix_shape(fields: Seq<FieldDescr>)
    ensures
        spec_file_prefix(fields).len() == 10 + spec_header_len(fields),
        spec_shape_pos(fields) + 24 <= spec_file_prefix(fields).len(),
        spec_file_prefix(fields).len() % 16 == 0,
        spec_file_prefix(fields).subrange(
            spec_shape_pos(fields) as int,
            spec_shape_pos(fields) as int + 24,
        ) == spec_filler() + spec_closing(),
{
    lemma_header_shape(fields);
    lemma_le_bytes_len(spec_header_len(fields), 2);
    let t = spec_header_text(fields);
    let p = crate::header::spec_header_prefix(fields);
    assert(spec_file_prefix(fields).subrange(
        spec_shape_pos(fields) as int,
        spec_shape_pos(fields) as int + 24,
    ) =~= t.subrange(p.len() as int, p.len() as int + 24));
}

/// Relies on byteorder's `LittleEndian::write_u16`: it stores `n` into two
/// bytes in little-endian order.
#[verifier::external_body]
fn u16_le(n: u16) -> (r: Vec<u8>)
    ensures
        r@ == le_bytes(n as nat, 2),
{
    let mut buf = vec![0u8; 2];
    byteorder::LittleEndian::write_u16(&mut buf, n);
    buf
}

/// Serialize rows of one record type, one row at a time. To serialize a
/// whole sequence in one call, use [`write_all`].
pub struct OutFile {
    /// The record type the writer was opened for.
    pub rt: RecordType,
    /// Every byte written so far.
    pub out: Vec<u8>,
    /// Where the row-count digits are patched in at close.
    pub shape_pos: usize,
    /// How many rows have been pushed.
    pub len: usize,
    /// Whether the placeholder has been patched; close runs at most once.
    pub closed: bool,
    /// The rows pushed so far, in order.
    pub rows: Ghost<Seq<Seq<Seq<Scalar>>>>,
}

impl OutFile {
    /// The writer's bytes are exactly the header followed by the encodings
    /// of the pushed rows, patched once closed.
    pub open spec fn wf(self) -> bool {
        &&& self.rt.wf()
        &&& spec_header_len(self.rt.fields@) <= 65535
        &&& self.shape_pos as nat == spec_shape_pos(self.rt.fields@)
        &&& self.len == self.rows@.len()
        &&& (forall|i: int|
            0 <= i < self.rows@.len() ==> row_matches(self.rt.fields@, #[trigger] self.rows@[i]))
        &&& (!self.closed ==> self.out@ == spec_file_prefix(self.rt.fields@) + spec_encode_rows(
            self.rows@,
        ))
        &&& (self.closed ==> self.out@ == spec_file_bytes(self.rt.fields@, self.rows@))
    }

    /// Opens a writer for one record type: writes the magic bytes, the
    /// format version, the header length, and the header text, with the
    /// row-count placeholder still unpatched. The preamble and header
    /// together are a multiple of 16 bytes.
    ///
    /// Fails exactly when the header text would not fit the 2-byte length
    /// field.
    pub fn new(rt: RecordType) -> (r: Result<OutFile, Error>)
        requires
            rt.wf(),
        ensures
            r matches Ok(w) ==> w.wf() && w.rt == rt && w.rows@ == Seq::<Seq<Seq<Scalar>>>::empty()
                && !w.closed && w.len == 0 && w.out@ == spec_file_prefix(rt.fields@)
                && w.out@.len() == 10 + spec_header_len(rt.fields@) && w.out@.len() % 16 == 0
                && w.shape_pos as nat == spec_shape_pos(rt.fields@),
            r is Err <==> spec_header_len(rt.fields@) > 65535,
            r is Err ==> r == Result::<OutFile, Error>::Err(Error::HeaderTooLong),
    {
        let (mut text, prefix_len) = match build_header_text(&rt.fields) {
            Ok(p) => p,
            Err(e) => {
                return Err(e);
            },
        };
        let mut out: Vec<u8> = Vec::new();
        // the magic byte, the magic text "NUMPY", and format version 1.0
        out.push(0x93);
        out.push(0x4e);
        out.push(0x55);
        out.push(0x4d);
        out.push(0x50);
        out.push(0x59);
        out.push(0x01);
        out.push(0x00);
        let mut lenb = u16_le(text.len() as u16);
        out.append(&mut lenb);
        out.append(&mut text);
        proof {
            lemma_header_shape(rt.fields@);
            lemma_le_bytes_len(spec_header_len(rt.fields@), 2);
            assert(out@ =~= spec_file_prefix(rt.fields@));
            assert(out@ + spec_encode_rows(Seq::<Seq<Seq<Scalar>>>::empty()) =~= out@);
            lemma_file_prefix_shape(rt.fields@);
        }
        let shape_pos = prefix_len + 10;
        Ok(OutFile { rt, out, shape_pos, len: 0, closed: false, rows: Ghost(Seq::empty()) })
    }

    /// Appends one row to the stream: the row's fields are encoded in
    /// declared order, immediately after everything written so far. Nothing
    /// before the row moves; in particular the placeholder offset is the
    /// one computed at construction.
    pub fn push(&mut self, row: &Vec<Vec<Scalar>>)
        requires
            old(self).wf(),
            !old(self).closed,
            row_matches(old(self).rt.fields@, row.deep_view()),
            old(self).len < usize::MAX,
        ensures
            final(self).wf(),
            !final(self).closed,
            final(self).rt == old(self).rt,
            final(self).shape_pos == old(self).shape_pos,
            final(self).len == old(self).len + 1,
            final(self).rows@ == old(self).rows@.push(row.deep_view()),
            final(self).out@ == old(self).out@ + spec_encode_row(row.deep_view()),
            final(self).out@.len() == old(self).out@.len() + spec_row_width(
                old(self).rt.fields@,
            ),
    {
        self.rt.encode(row, &mut self.out);
        self.len = self.len + 1;
        self.rows = Ghost(self.rows@.push(row.deep_view()));
        proof {
            lemma_encode_rows_snoc(old(self).rows@, row.deep_view());
            assert(self.out@ =~= spec_file_prefix(self.rt.fields@) + spec_encode_rows(
                self.rows@,
            ));
        }
    }

    /// Finalizes the header: overwrites the placeholder region with the
    /// decimal row count, the closing text, and trailing spaces, leaving
    /// every byte outside the region, and the file's length, unchanged.
    /// Runs at most once: on a closed writer it does nothing and succeeds.
    ///
    /// Fails exactly when the decimal row count is wider than the reserved
    /// placeholder, and then changes nothing.
    pub fn close(&mut self) -> (r: Result<(), Error>)
        requires
            old(self).wf(),
        ensures
            final(self).wf(),
            final(self).rt == old(self).rt,
            final(self).rows@ == old(self).rows@,
            final(self).len == old(self).len,
            final(self).shape_pos == old(self).shape_pos,
            final(self).out@.len() == old(self).out@.len(),
            old(self).closed ==> r is Ok && *final(self) == *old(self),
            !old(self).closed && dec_digits(old(self).len as nat).len() <= PLACEHOLDER_WIDTH
                ==> r is Ok && final(self).closed && final(self).out@ == spec_file_bytes(
                old(self).rt.fields@,
                old(self).rows@,
            ),
            !old(self).closed && dec_digits(old(self).len as nat).len() > PLACEHOLDER_WIDTH
                ==> r == Result::<(), Error>::Err(Error::RowCountTooWide) && *final(self)
                == *old(self),
            r is Ok <==> old(self).closed || dec_digits(old(self).len as nat).len()
                <= PLACEHOLDER_WIDTH,
    {
        if self.closed {
            return Ok(());
        }
        let mut patch = dec_digits_vec(self.len as u64);
        if patch.len() > PLACEHOLDER_WIDTH {
            return Err(Error::RowCountTooWide);
        }
        let dlen = patch.len();
        push_str_bytes(&mut patch, ",), }");
        crate::bytes::push_repeat(&mut patch, 0x20, PLACEHOLDER_WIDTH - dlen);
        proof {
            lemma_file_prefix_shape(self.rt.fields@);
            lemma_closing_bytes();
            assert(patch@ =~= spec_patch(self.len as nat));
            assert(patch@.len() == 24);
        }
        write_at(&mut self.out, self.shape_pos, &patch);
        self.closed = true;
        proof {
            let fields = self.rt.fields@;
            let fp = spec_file_prefix(fields);
            let er = spec_encode_rows(self.rows@);
            let sp = spec_shape_pos(fields) as int;
            assert(old(self).out@.take(sp) =~= fp.take(sp));
            assert(old(self).out@.skip(sp + 24) =~= fp.skip(sp + 24) + er);
            assert(self.out@ =~= spec_file_bytes(fields, self.rows@));
        }
        Ok(())
    }
}

/// Serialize a whole sequence of rows of one record type into a finished
/// file image: open a writer, push every row in order, close.
///
/// Fails exactly as the writer does: on a header that does not fit the
/// 2-byte length field, and on a row count wider than the placeholder.
pub fn write_all(rt: RecordType, rows: &Vec<Vec<Vec<Scalar>>>) -> (r: Result<Vec<u8>, Error>)
    requires
        rt.wf(),
        forall|i: int|
            0 <= i < rows@.len() ==> row_matches(rt.fields@, #[trigger] rows.deep_view()[i]),
    ensures
        r matches Ok(b) ==> b@ == spec_file_bytes(rt.fields@, rows.deep_view()),
        r is Ok <==> spec_header_len(rt.fields@) <= 65535 && dec_digits(rows@.len()).len()
            <= PLACEHOLDER_WIDTH,
        spec_header_len(rt.fields@) > 65535 ==> r == Result::<Vec<u8>, Error>::Err(
            Error::HeaderTooLong,
        ),
        spec_header_len(rt.fields@) <= 65535 && dec_digits(rows@.len()).len()
            > PLACEHOLDER_WIDTH ==> r == Result::<Vec<u8>, Error>::Err(Error::RowCountTooWide),
{
    let ghost fields0 = rt.fields@;
    let ghost rowsv = rows.deep_view();
    proof {
        assert(rowsv.len() == rows@.len());
    }
    let mut w = match OutFile::new(rt) {
        Ok(w) => w,
        Err(e) => {
            return Err(e);
        },
    };
    let mut i: usize = 0;
    proof {
        assert(rowsv.take(0) =~= Seq::<Seq<Seq<Scalar>>>::empty());
    }
    while i < rows.len()
        invariant
            i <= rows@.len(),
            rowsv == rows.deep_view(),
            rowsv.len() == rows@.len(),
            forall|j: int| 0 <= j < rows@.len() ==> row_matches(fields0, #[trigger] rowsv[j]),
            w.wf(),
            !w.closed,
            w.rt.fields@ == fields0,
            w.len == i,
            w.rows@ == rowsv.take(i as int),
        decreases rows@.len() - i,
    {
        proof {
            assert(rows@[i as int].deep_view() == rowsv[i as int]);
        }
        w.push(&rows[i]);
        i = i + 1;
        proof {
            assert(rowsv.take(i as int) =~= rowsv.take(i - 1).push(rowsv[i - 1]));
        }
    }
    proof {
        assert(rowsv.take(rowsv.len() as int) =~= rowsv);
    }
    match w.close() {
        Ok(()) => Ok(w.out),
        Err(e) => Err(e),
    }
}

/// Re-parsing a finished file restores the row count: the digit run that
/// starts at the placeholder offset spells exactly the number of rows the
/// writer was given, for any record type and any row sequence whose count
/// fits the placeholder.
pub proof fn lemma_reparse_row_count(fields: Seq<FieldDescr>, rows: Seq<Seq<Seq<Scalar>>>)
    requires
        dec_digits(rows.len()).len() <= PLACEHOLDER_WIDTH,
    ensures
        spec_parse_count_at(spec_file_bytes(fields, rows), spec_shape_pos(fields) as int)
            == rows.len(),
{
    lemma_file_prefix_shape(fields);
    lemma_closing_bytes();
    let fp = spec_file_prefix(fields);
    let sp = spec_shape_pos(fields) as int;
    let n = rows.len();
    let whole = spec_file_bytes(fields, rows);
    let spaces = Seq::new((PLACEHOLDER_WIDTH - dec_digits(n).len()) as nat, |k: int| 0x20u8);
    let rest = spec_closing() + spaces + fp.skip(sp + 24) + spec_encode_rows(rows);
    assert(whole.skip(sp) =~= dec_digits(n) + rest);
    assert(rest[0] == 0x2cu8);
    assert(!is_digit(0x2cu8));
    lemma_dec_digits_are_digits(n);
    lemma_digit_run_of_digits(dec_digits(n), rest);
    lemma_dec_digits_value(n);
}

/// A writer closed with no rows pushed yields a file of exactly the
/// preamble and header — a data region of zero bytes — whose placeholder
/// region now spells a row count of zero followed by the closing text.
pub proof fn lemma_finalize_empty(fields: Seq<FieldDescr>)
    ensures
        spec_file_bytes(fields, Seq::empty()).len() == 10 + spec_header_len(fields),
        spec_patch(0) == seq![0x30u8] + spec_closing() + Seq::new(
            (PLACEHOLDER_WIDTH - 1) as nat,
            |k: int| 0x20u8,
        ),
{
    lemma_file_prefix_shape(fields);
    lemma_closing_bytes();
    assert(dec_digits(0) =~= seq![0x30u8]);
    assert(spec_patch(0) =~= seq![0x30u8] + spec_closing() + Seq::new(
        (PLACEHOLDER_WIDTH - 1) as nat,
        |k: int| 0x20u8,
    ));
    assert(spec_encode_rows(Seq::<Seq<Seq<Scalar>>>::empty()) =~= Seq::<u8>::empty());
}

} // verus!
