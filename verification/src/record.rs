//! Record layouts: an ordered list of named fields, the fixed byte width of
//! one row, and the verified row encoder and decoder.
//!
//! A row value is a `Vec<Vec<Scalar>>`: one inner vector per declared field,
//! holding that field's elements in order. A scalar field holds exactly one
//! element; a fixed-shape array field holds the product of its extents.

use vstd::prelude::*;
use vstd::arithmetic::mul::{lemma_mul_is_associative, lemma_mul_is_commutative,
    lemma_mul_increases, lemma_mul_is_distributive_add_other_way};
use crate::Error;
use crate::scalar::{Scalar, ScalarKind, kind_width, scalar_kind, scalar_of_bits,
    spec_encode_scalar, lemma_scalar_round_trip, encode_scalar, decode_scalar};
use crate::bytes::{le_value, lemma_le_bytes_len};

verus! {

/// One declared field: its name, element kind, and fixed array shape.
/// An empty shape declares a scalar field.
#[derive(Clone, Debug)]
pub struct FieldDescr {
    pub name: String,
    pub kind: ScalarKind,
    pub shape: Vec<usize>,
}

/// The number of elements a shape holds: the product of its extents.
/// An empty shape (a scalar field) holds one element.
pub open spec fn spec_shape_count(shape: Seq<usize>) -> nat
    decreases shape.len(),
{
    if shape.len() == 0 {
        1
    } else {
        (shape[0] * spec_shape_count(shape.skip(1))) as nat
    }
}

/// The byte width of one field: element width times element count.
pub open spec fn spec_field_width(f: FieldDescr) -> nat {
    kind_width(f.kind) * spec_shape_count(f.shape@)
}

/// The byte width of one row: the sum of its fields' byte widths.
pub open spec fn spec_row_width(fields: Seq<FieldDescr>) -> nat
    decreases fields.len(),
{
    if fields.len() == 0 {
        0
    } else {
        spec_field_width(fields[0]) + spec_row_width(fields.skip(1))
    }
}

/// The elements `es` are a well-typed value for the field `f`: the right
/// element count, every element of the field's kind.
pub open spec fn field_matches(f: FieldDescr, es: Seq<Scalar>) -> bool {
    &&& es.len() == spec_shape_count(f.shape@)
    &&& forall|j: int| 0 <= j < es.len() ==> scalar_kind(#[trigger] es[j]) == f.kind
}

/// The row `row` is a well-typed value for the record type `fields`.
pub open spec fn row_matches(fields: Seq<FieldDescr>, row: Seq<Seq<Scalar>>) -> bool {
    &&& row.len() == fields.len()
    &&& forall|i: int| 0 <= i < fields.len() ==> field_matches(fields[i], #[trigger] row[i])
}

/// The encoding of one field value: its elements' encodings, in order.
pub open spec fn spec_encode_elems(es: Seq<Scalar>) -> Seq<u8>
    decreases es.len(),
{
    if es.len() == 0 {
        Seq::empty()
    } else {
        spec_encode_scalar(es[0]) + spec_encode_elems(es.skip(1))
    }
}

/// The encoding of one row: its fields' encodings, in declared order,
/// with no padding in between.
pub open spec fn spec_encode_row(row: Seq<Seq<Scalar>>) -> Seq<u8>
    decreases row.len(),
{
    if row.len() == 0 {
        Seq::empty()
    } else {
        spec_encode_elems(row[0]) + spec_encode_row(row.skip(1))
    }
}

/// The `n` elements of kind `k` read from the front of `bs`.
pub open spec fn spec_decode_elems(k: ScalarKind, n: nat, bs: Seq<u8>) -> Seq<Scalar>
    decreases n,
{
    if n == 0 {
        Seq::empty()
    } else {
        seq![scalar_of_bits(k, le_value(bs.take(kind_width(k) as int)))] + spec_decode_elems(
            k,
            (n - 1) as nat,
            bs.skip(kind_width(k) as int),
        )
    }
}

/// The row read from the front of `bs`: each field's elements are read from
/// the cumulative offset of the field widths before it.
pub open spec fn spec_decode_row(fields: Seq<FieldDescr>, bs: Seq<u8>) -> Seq<Seq<Scalar>>
    decreases fields.len(),
{
    if fields.len() == 0 {
        Seq::empty()
    } else {
        seq![spec_decode_elems(fields[0].kind, spec_shape_count(fields[0].shape@), bs)]
            + spec_decode_row(fields.skip(1), bs.skip(spec_field_width(fields[0]) as int))
    }
}

pub proof fn lemma_shape_count_zero(shape: Seq<usize>, i: int)
    requires
        0 <= i < shape.len(),
        shape[i] == 0,
    ensures
        spec_shape_count(shape) == 0,
    decreases shape.len(),
{
    if i == 0 {
    } else {
        lemma_shape_count_zero(shape.skip(1), i - 1);
    }
}

pub proof fn lemma_shape_count_snoc(shape: Seq<usize>, d: usize)
    ensures
        spec_shape_count(shape.push(d)) == spec_shape_count(shape) * d,
    decreases shape.len(),
{
    reveal_with_fuel(spec_shape_count, 3);
    if shape.len() == 0 {
        assert(shape.push(d) =~= seq![d]);
        assert(seq![d].skip(1) =~= Seq::<usize>::empty());
        assert(spec_shape_count(seq![d]) == d * 1);
        lemma_mul_is_commutative(d as int, 1);
    } else {
        lemma_shape_count_snoc(shape.skip(1), d);
        assert(shape.push(d)[0] == shape[0]);
        assert(shape.push(d).skip(1) =~= shape.skip(1).push(d));
        lemma_mul_is_associative(
            shape[0] as int,
            spec_shape_count(shape.skip(1)) as int,
            d as int,
        );
    }
}

pub proof fn lemma_shape_count_pos(shape: Seq<usize>)
    requires
        forall|i: int| 0 <= i < shape.len() ==> #[trigger] shape[i] >= 1,
    ensures
        spec_shape_count(shape) >= 1,
    decreases shape.len(),
{
    if shape.len() > 0 {
        lemma_shape_count_pos(shape.skip(1));
        lemma_mul_increases(shape[0] as int, spec_shape_count(shape.skip(1)) as int);
    }
}

pub proof fn lemma_shape_count_split(shape: Seq<usize>, i: int)
    requires
        0 <= i <= shape.len(),
    ensures
        spec_shape_count(shape) == spec_shape_count(shape.take(i)) * spec_shape_count(
            shape.skip(i),
        ),
    decreases i,
{
    if i == 0 {
        assert(shape.take(0) =~= Seq::<usize>::empty());
        assert(shape.skip(0) =~= shape);
        assert(spec_shape_count(shape) == 1 * spec_shape_count(shape));
    } else {
        lemma_shape_count_split(shape.skip(1), i - 1);
        assert(shape.take(i).skip(1) =~= shape.skip(1).take(i - 1));
        assert(shape.skip(1).skip(i - 1) =~= shape.skip(i));
        assert(shape.take(i)[0] == shape[0]);
        lemma_mul_is_associative(
            shape[0] as int,
            spec_shape_count(shape.skip(1).take(i - 1)) as int,
            spec_shape_count(shape.skip(i)) as int,
        );
    }
}

pub proof fn lemma_row_width_snoc(fields: Seq<FieldDescr>, f: FieldDescr)
    ensures
        spec_row_width(fields.push(f)) == spec_row_width(fields) + spec_field_width(f),
    decreases fields.len(),
{
    reveal_with_fuel(spec_row_width, 3);
    if fields.len() == 0 {
        assert(fields.push(f) =~= seq![f]);
        assert(seq![f].skip(1) =~= Seq::<FieldDescr>::empty());
    } else {
        lemma_row_width_snoc(fields.skip(1), f);
        assert(fields.push(f)[0] == fields[0]);
        assert(fields.push(f).skip(1) =~= fields.skip(1).push(f));
    }
}

pub proof fn lemma_row_width_elem(fields: Seq<FieldDescr>, i: int)
    requires
        0 <= i < fields.len(),
    ensures
        spec_row_width(fields) >= spec_field_width(fields[i]),
    decreases i,
{
    if i > 0 {
        lemma_row_width_elem(fields.skip(1), i - 1);
    }
}

pub proof fn lemma_row_width_prefix(fields: Seq<FieldDescr>, i: int)
    requires
        0 <= i <= fields.len(),
    ensures
        spec_row_width(fields.take(i)) <= spec_row_width(fields),
    decreases i,
{
    if i == 0 {
        assert(fields.take(0) =~= Seq::<FieldDescr>::empty());
    } else {
        lemma_row_width_prefix(fields.skip(1), i - 1);
        assert(fields.take(i).skip(1) =~= fields.skip(1).take(i - 1));
        assert(fields.take(i)[0] == fields[0]);
    }
}

pub proof fn lemma_encode_elems_snoc(es: Seq<Scalar>, e: Scalar)
    ensures
        spec_encode_elems(es.push(e)) == spec_encode_elems(es) + spec_encode_scalar(e),
    decreases es.len(),
{
    reveal_with_fuel(spec_encode_elems, 3);
    if es.len() == 0 {
        assert(es.push(e) =~= seq![e]);
        assert(seq![e].skip(1) =~= Seq::<Scalar>::empty());
        assert(spec_encode_scalar(e) + Seq::<u8>::empty() =~= spec_encode_scalar(e));
        assert(spec_encode_elems(es) + spec_encode_scalar(e) =~= spec_encode_scalar(e));
    } else {
        lemma_encode_elems_snoc(es.skip(1), e);
        assert(es.push(e)[0] == es[0]);
        assert(es.push(e).skip(1) =~= es.skip(1).push(e));
        assert(spec_encode_scalar(es[0]) + (spec_encode_elems(es.skip(1)) + spec_encode_scalar(e))
            =~= (spec_encode_scalar(es[0]) + spec_encode_elems(es.skip(1))) + spec_encode_scalar(
            e,
        ));
    }
}

pub proof fn lemma_encode_row_snoc(row: Seq<Seq<Scalar>>, es: Seq<Scalar>)
    ensures
        spec_encode_row(row.push(es)) == spec_encode_row(row) + spec_encode_elems(es),
    decreases row.len(),
{
    reveal_with_fuel(spec_encode_row, 3);
    if row.len() == 0 {
        assert(row.push(es) =~= seq![es]);
        assert(seq![es].skip(1) =~= Seq::<Seq<Scalar>>::empty());
        assert(spec_encode_elems(es) + Seq::<u8>::empty() =~= spec_encode_elems(es));
        assert(spec_encode_row(row) + spec_encode_elems(es) =~= spec_encode_elems(es));
    } else {
        lemma_encode_row_snoc(row.skip(1), es);
        assert(row.push(es)[0] == row[0]);
        assert(row.push(es).skip(1) =~= row.skip(1).push(es));
        assert(spec_encode_elems(row[0]) + (spec_encode_row(row.skip(1)) + spec_encode_elems(es))
            =~= (spec_encode_elems(row[0]) + spec_encode_row(row.skip(1))) + spec_encode_elems(
            es,
        ));
    }
}

pub proof fn lemma_encode_elems_len(k: ScalarKind, es: Seq<Scalar>)
    requires
        forall|j: int| 0 <= j < es.len() ==> scalar_kind(#[trigger] es[j]) == k,
    ensures
        spec_encode_elems(es).len() == es.len() * kind_width(k),
    decreases es.len(),
{
    if es.len() == 0 {
        assert(0 * kind_width(k) == 0);
    } else {
        lemma_encode_elems_len(k, es.skip(1));
        lemma_le_bytes_len(crate::scalar::scalar_bits(es[0]), kind_width(scalar_kind(es[0])));
        lemma_mul_is_distributive_add_other_way(
            kind_width(k) as int,
            1,
            (es.len() - 1) as int,
        );
        lemma_mul_is_commutative(kind_width(k) as int, es.len() as int);
        lemma_mul_is_commutative(kind_width(k) as int, (es.len() - 1) as int);
    }
}

/// Every well-typed row encodes to exactly the row byte width of its record
/// type, whatever its element values are.
pub proof fn lemma_encode_row_len(fields: Seq<FieldDescr>, row: Seq<Seq<Scalar>>)
    requires
        row_matches(fields, row),
    ensures
        spec_encode_row(row).len() == spec_row_width(fields),
    decreases fields.len(),
{
    if fields.len() > 0 {
        assert(field_matches(fields[0], row[0]));
        lemma_encode_elems_len(fields[0].kind, row[0]);
        lemma_mul_is_commutative(
            spec_shape_count(fields[0].shape@) as int,
            kind_width(fields[0].kind) as int,
        );
        assert(row_matches(fields.skip(1), row.skip(1))) by {
            assert(forall|i: int|
                0 <= i < fields.skip(1).len() ==> fields.skip(1)[i] == fields[i + 1]
                    && row.skip(1)[i] == row[i + 1]);
        }
        lemma_encode_row_len(fields.skip(1), row.skip(1));
    }
}

pub proof fn lemma_decode_elems_props(k: ScalarKind, n: nat, bs: Seq<u8>)
    ensures
        spec_decode_elems(k, n, bs).len() == n,
        forall|j: int|
            0 <= j < n ==> scalar_kind(#[trigger] spec_decode_elems(k, n, bs)[j]) == k,
    decreases n,
{
    if n > 0 {
        lemma_decode_elems_props(k, (n - 1) as nat, bs.skip(kind_width(k) as int));
    }
}

/// Decoding always yields a well-typed row for the record type it was asked
/// to read.
pub proof fn lemma_decode_row_matches(fields: Seq<FieldDescr>, bs: Seq<u8>)
    ensures
        row_matches(fields, spec_decode_row(fields, bs)),
    decreases fields.len(),
{
    if fields.len() > 0 {
        lemma_decode_elems_props(fields[0].kind, spec_shape_count(fields[0].shape@), bs);
        lemma_decode_row_matches(
            fields.skip(1),
            bs.skip(spec_field_width(fields[0]) as int),
        );
        let r = spec_decode_row(fields, bs);
        assert(forall|i: int|
            1 <= i < r.len() ==> r[i] == spec_decode_row(
                fields.skip(1),
                bs.skip(spec_field_width(fields[0]) as int),
            )[i - 1]);
    }
}

pub proof fn lemma_decode_elems_snoc(k: ScalarKind, j: nat, bs: Seq<u8>)
    requires
        (j + 1) * kind_width(k) <= bs.len(),
    ensures
        spec_decode_elems(k, j + 1, bs) == spec_decode_elems(k, j, bs).push(
            scalar_of_bits(
                k,
                le_value(bs.skip((j * kind_width(k)) as int).take(kind_width(k) as int)),
            ),
        ),
    decreases j,
{
    let kw = kind_width(k);
    reveal_with_fuel(spec_decode_elems, 3);
    if j == 0 {
        assert(bs.skip(0) =~= bs);
        assert(spec_decode_elems(k, 1, bs) =~= spec_decode_elems(k, 0, bs).push(
            scalar_of_bits(k, le_value(bs.take(kw as int))),
        ));
    } else {
        assert((j - 1) * kw == j * kw - kw && (j + 1) * kw == j * kw + kw) by {
            lemma_mul_is_distributive_add_other_way(kw as int, (j - 1) as int, 1);
            lemma_mul_is_distributive_add_other_way(kw as int, j as int, 1);
        }
        lemma_decode_elems_snoc(k, (j - 1) as nat, bs.skip(kw as int));
        assert(bs.skip(kw as int).skip(j * kw - kw) =~= bs.skip((j * kw) as int));
        assert(spec_decode_elems(k, j + 1, bs) =~= spec_decode_elems(k, j, bs).push(
            scalar_of_bits(k, le_value(bs.skip((j * kw) as int).take(kw as int))),
        ));
    }
}

/// Round trip of one field value: decoding the encoding of well-typed
/// elements restores them, whatever bytes follow.
pub proof fn lemma_elems_round_trip(k: ScalarKind, es: Seq<Scalar>, rest: Seq<u8>)
    requires
        forall|j: int| 0 <= j < es.len() ==> scalar_kind(#[trigger] es[j]) == k,
    ensures
        spec_decode_elems(k, es.len(), spec_encode_elems(es) + rest) == es,
    decreases es.len(),
{
    if es.len() > 0 {
        let kw = kind_width(k);
        let bs = spec_encode_elems(es) + rest;
        let tail = spec_encode_elems(es.skip(1)) + rest;
        lemma_scalar_round_trip(es[0], tail);
        lemma_le_bytes_len(crate::scalar::scalar_bits(es[0]), kw);
        assert(bs =~= spec_encode_scalar(es[0]) + tail);
        assert(bs.take(kw as int) =~= (spec_encode_scalar(es[0]) + tail).take(kw as int));
        assert(bs.skip(kw as int) =~= tail);
        lemma_elems_round_trip(k, es.skip(1), rest);
        assert(spec_decode_elems(k, es.len(), bs) =~= es);
    }
}

/// Round trip of a whole row: decoding the encoding of a well-typed row
/// restores the row, field by field, whatever bytes follow the row.
pub proof fn lemma_row_round_trip(fields: Seq<FieldDescr>, row: Seq<Seq<Scalar>>, rest: Seq<u8>)
    requires
        row_matches(fields, row),
    ensures
        spec_decode_row(fields, spec_encode_row(row) + rest) == row,
    decreases fields.len(),
{
    if fields.len() == 0 {
        assert(spec_decode_row(fields, spec_encode_row(row) + rest) =~= row);
    } else {
        let fw = spec_field_width(fields[0]);
        let bs = spec_encode_row(row) + rest;
        let tail = spec_encode_row(row.skip(1)) + rest;
        assert(field_matches(fields[0], row[0]));
        lemma_encode_elems_len(fields[0].kind, row[0]);
        lemma_mul_is_commutative(
            spec_shape_count(fields[0].shape@) as int,
            kind_width(fields[0].kind) as int,
        );
        assert(bs =~= spec_encode_elems(row[0]) + tail);
        lemma_elems_round_trip(fields[0].kind, row[0], tail);
        assert(spec_decode_elems(fields[0].kind, spec_shape_count(fields[0].shape@), bs) == row[0])
            by {
            assert(spec_encode_elems(row[0]) + tail =~= bs);
        }
        assert(bs.skip(fw as int) =~= tail);
        assert(row_matches(fields.skip(1), row.skip(1))) by {
            assert(forall|i: int|
                0 <= i < fields.skip(1).len() ==> fields.skip(1)[i] == fields[i + 1]
                    && row.skip(1)[i] == row[i + 1]);
        }
        lemma_row_round_trip(fields.skip(1), row.skip(1), rest);
        assert(spec_decode_row(fields, bs) =~= row);
    }
}

/// The number of elements a shape declares, or `None` where the product of
/// its extents does not fit in `usize`.
fn elem_count(shape: &Vec<usize>) -> (r: Option<usize>)
    ensures
        (r matches Some(c) ==> c as nat == spec_shape_count(shape@)),
        r is None ==> spec_shape_count(shape@) > usize::MAX,
{
    let mut i: usize = 0;
    while i < shape.len()
        invariant
            i <= shape@.len(),
            forall|j: int| 0 <= j < i ==> #[trigger] shape@[j] >= 1,
        decreases shape@.len() - i,
    {
        if shape[i] == 0 {
            proof {
                lemma_shape_count_zero(shape@, i as int);
            }
            return Some(0);
        }
        i = i + 1;
    }
    let mut acc: usize = 1;
    let mut k: usize = 0;
    proof {
        assert(shape@.take(0) =~= Seq::<usize>::empty());
    }
    while k < shape.len()
        invariant
            k <= shape@.len(),
            forall|j: int| 0 <= j < shape@.len() ==> #[trigger] shape@[j] >= 1,
            acc as nat == spec_shape_count(shape@.take(k as int)),
            acc >= 1,
        decreases shape@.len() - k,
    {
        let d = shape[k];
        proof {
            assert(shape@.take(k + 1) =~= shape@.take(k as int).push(shape@[k as int]));
            lemma_shape_count_snoc(shape@.take(k as int), d);
        }
        match acc.checked_mul(d) {
            Some(a) => {
                acc = a;
                proof {
                    lemma_shape_count_pos(shape@.take(k + 1));
                }
            },
            None => {
                proof {
                    lemma_shape_count_split(shape@, k + 1);
                    assert(forall|j: int|
                        0 <= j < shape@.skip(k + 1).len() ==> #[trigger] shape@.skip(k + 1)[j]
                            >= 1);
                    lemma_shape_count_pos(shape@.skip(k + 1));
                    lemma_mul_increases(
                        spec_shape_count(shape@.skip(k + 1)) as int,
                        spec_shape_count(shape@.take(k + 1)) as int,
                    );
                    lemma_mul_is_commutative(
                        spec_shape_count(shape@.take(k + 1)) as int,
                        spec_shape_count(shape@.skip(k + 1)) as int,
                    );
                }
                return None;
            },
        }
        k = k + 1;
    }
    proof {
        assert(shape@.take(shape@.len() as int) =~= shape@);
    }
    Some(acc)
}

/// A registered record type: its ordered fields, each field's element
/// count, and the fixed byte width of one row.
#[derive(Clone, Debug)]
pub struct RecordType {
    pub fields: Vec<FieldDescr>,
    pub counts: Vec<usize>,
    pub width: usize,
}

impl RecordType {
    /// The derived artifacts agree with the declared fields.
    pub open spec fn wf(self) -> bool {
        &&& self.fields@.len() > 0
        &&& self.counts@.len() == self.fields@.len()
        &&& (forall|i: int|
            0 <= i < self.fields@.len() ==> #[trigger] self.counts@[i] as nat == spec_shape_count(
                self.fields@[i].shape@,
            ))
        &&& self.width as nat == spec_row_width(self.fields@)
    }

    /// Derives the layout of a record type from its declared fields.
    ///
    /// Fails on a record type with no fields, and on one whose row byte
    /// width does not fit in `usize`; succeeds on every other input.
    pub fn new(fields: Vec<FieldDescr>) -> (r: Result<RecordType, Error>)
        ensures
            r matches Ok(rt) ==> rt.wf() && rt.fields@ == fields@ && rt.width as nat
                == spec_row_width(fields@),
            fields@.len() == 0 ==> r == Result::<RecordType, Error>::Err(Error::EmptyRecord),
            fields@.len() > 0 && spec_row_width(fields@) > usize::MAX ==> r == Result::<
                RecordType,
                Error,
            >::Err(Error::RecordTooWide),
            r is Ok <==> fields@.len() > 0 && spec_row_width(fields@) <= usize::MAX,
    {
        if fields.len() == 0 {
            return Err(Error::EmptyRecord);
        }
        let mut counts: Vec<usize> = Vec::new();
        let mut width: usize = 0;
        let mut i: usize = 0;
        proof {
            assert(fields@.take(0) =~= Seq::<FieldDescr>::empty());
        }
        while i < fields.len()
            invariant
                i <= fields@.len(),
                fields@.len() > 0,
                counts@.len() == i,
                forall|j: int|
                    0 <= j < i ==> #[trigger] counts@[j] as nat == spec_shape_count(
                        fields@[j].shape@,
                    ),
                width as nat == spec_row_width(fields@.take(i as int)),
            decreases fields@.len() - i,
        {
            proof {
                lemma_row_width_elem(fields@, i as int);
                assert(fields@.take(i + 1) =~= fields@.take(i as int).push(fields@[i as int]));
                lemma_row_width_snoc(fields@.take(i as int), fields@[i as int]);
                lemma_row_width_prefix(fields@, i + 1);
            }
            let c = match elem_count(&fields[i].shape) {
                Some(c) => c,
                None => {
                    proof {
                        lemma_mul_increases(
                            kind_width(fields@[i as int].kind) as int,
                            spec_shape_count(fields@[i as int].shape@) as int,
                        );
                    }
                    return Err(Error::RecordTooWide);
                },
            };
            let kw = fields[i].kind.width();
            let fw = match c.checked_mul(kw) {
                Some(f) => f,
                None => {
                    proof {
                        lemma_mul_is_commutative(
                            c as int,
                            kind_width(fields@[i as int].kind) as int,
                        );
                    }
                    return Err(Error::RecordTooWide);
                },
            };
            proof {
                lemma_mul_is_commutative(c as int, kind_width(fields@[i as int].kind) as int);
            }
            let w2 = match width.checked_add(fw) {
                Some(w) => w,
                None => {
                    return Err(Error::RecordTooWide);
                },
            };
            counts.push(c);
            width = w2;
            i = i + 1;
        }
        proof {
            assert(fields@.take(fields@.len() as int) =~= fields@);
        }
        Ok(RecordType { fields, counts, width })
    }

    /// The ordered field layout this record type was registered with.
    pub fn get_layout(&self) -> (r: &Vec<FieldDescr>)
        ensures
            r@ == self.fields@,
    {
        &self.fields
    }

    /// The fixed byte width of one row: the sum of the fields' individual
    /// byte widths, independent of any field value.
    pub fn row_byte_width(&self) -> (r: usize)
        requires
            self.wf(),
        ensures
            r as nat == spec_row_width(self.fields@),
    {
        self.width
    }

    /// Encodes one row, appending its fields' encodings to `out` in
    /// declared order; the row grows `out` by exactly the row byte width.
    pub fn encode(&self, row: &Vec<Vec<Scalar>>, out: &mut Vec<u8>)
        requires
            self.wf(),
            row_matches(self.fields@, row.deep_view()),
        ensures
            final(out)@ == old(out)@ + spec_encode_row(row.deep_view()),
            final(out)@.len() == old(out)@.len() + spec_row_width(self.fields@),
    {
        let ghost rowv = row.deep_view();
        let mut i: usize = 0;
        proof {
            assert(rowv.take(0) =~= Seq::<Seq<Scalar>>::empty());
            assert(out@ + spec_encode_row(rowv.take(0)) =~= out@);
        }
        while i < row.len()
            invariant
                i <= row@.len(),
                rowv == row.deep_view(),
                rowv.len() == row@.len(),
                row_matches(self.fields@, rowv),
                out@ == old(out)@ + spec_encode_row(rowv.take(i as int)),
            decreases row@.len() - i,
        {
            let es = &row[i];
            let ghost esv = rowv[i as int];
            proof {
                assert(esv == row@[i as int].deep_view());
                assert(esv =~= row@[i as int]@);
            }
            let ghost start = out@;
            let mut j: usize = 0;
            proof {
                assert(esv.take(0) =~= Seq::<Scalar>::empty());
                assert(start + spec_encode_elems(esv.take(0)) =~= start);
            }
            while j < es.len()
                invariant
                    j <= es@.len(),
                    esv == es@,
                    out@ == start + spec_encode_elems(esv.take(j as int)),
                decreases es@.len() - j,
            {
                encode_scalar(&es[j], out);
                j = j + 1;
                proof {
                    assert(esv.take(j as int) =~= esv.take(j - 1).push(esv[j - 1]));
                    lemma_encode_elems_snoc(esv.take(j - 1), esv[j - 1]);
                    assert(out@ =~= start + spec_encode_elems(esv.take(j as int)));
                }
            }
            i = i + 1;
            proof {
                assert(esv.take(esv.len() as int) =~= esv);
                assert(rowv.take(i as int) =~= rowv.take(i - 1).push(rowv[i - 1]));
                lemma_encode_row_snoc(rowv.take(i - 1), rowv[i - 1]);
                assert(out@ =~= old(out)@ + spec_encode_row(rowv.take(i as int)));
            }
        }
        proof {
            assert(rowv.take(rowv.len() as int) =~= rowv);
            lemma_encode_row_len(self.fields@, rowv);
        }
    }

    /// Decodes one row from the front of `buf`, reading each field at the
    /// cumulative offset of the field widths before it. The result is
    /// always a well-typed row for this record type.
    pub fn decode(&self, buf: &[u8]) -> (r: Vec<Vec<Scalar>>)
        requires
            self.wf(),
            spec_row_width(self.fields@) <= buf@.len(),
        ensures
            r.deep_view() == spec_decode_row(self.fields@, buf@),
            row_matches(self.fields@, r.deep_view()),
    {
        proof {
            assert(self.fields@.skip(0) =~= self.fields@);
            assert(buf@.skip(0) =~= buf@);
            lemma_decode_row_matches(self.fields@, buf@);
        }
        decode_from(&self.fields, &self.counts, 0, buf, 0)
    }
}

/// Reads the elements of one field: `n` scalars of kind `k`, packed
/// back-to-back starting at `off`.
fn decode_elems(k: &ScalarKind, n: usize, buf: &[u8], off: usize) -> (r: Vec<Scalar>)
    requires
        off + n * kind_width(*k) <= buf@.len(),
    ensures
        r@ == spec_decode_elems(*k, n as nat, buf@.skip(off as int)),
{
    let kw = k.width();
    let blen = buf.len();
    let mut r: Vec<Scalar> = Vec::new();
    let mut j: usize = 0;
    while j < n
        invariant
            j <= n,
            kw as nat == kind_width(*k),
            off + n * kind_width(*k) <= blen == buf@.len(),
            r@ == spec_decode_elems(*k, j as nat, buf@.skip(off as int)),
        decreases n - j,
    {
        proof {
            lemma_mul_is_commutative(j as int, kw as int);
            lemma_mul_is_commutative(n as int, kw as int);
            vstd::arithmetic::mul::lemma_mul_inequality(j + 1, n as int, kw as int);
            lemma_mul_is_distributive_add_other_way(kw as int, j as int, 1);
            assert((j + 1) * kw == j * kw + kw);
        }
        let s = decode_scalar(k, buf, off + j * kw);
        proof {
            lemma_decode_elems_snoc(*k, j as nat, buf@.skip(off as int));
            assert(buf@.skip(off as int).skip(j * kw).take(kw as int) =~= buf@.subrange(
                off + j * kw,
                off + j * kw + kw,
            ));
        }
        r.push(s);
        j = j + 1;
    }
    r
}

/// Reads the fields of one row from index `i` on, starting at byte `off`.
fn decode_from(fields: &Vec<FieldDescr>, counts: &Vec<usize>, i: usize, buf: &[u8], off: usize)
    -> (r: Vec<Vec<Scalar>>)
    requires
        i <= fields@.len(),
        counts@.len() == fields@.len(),
        forall|j: int|
            0 <= j < fields@.len() ==> #[trigger] counts@[j] as nat == spec_shape_count(
                fields@[j].shape@,
            ),
        off + spec_row_width(fields@.skip(i as int)) <= buf@.len(),
    ensures
        r.deep_view() == spec_decode_row(fields@.skip(i as int), buf@.skip(off as int)),
    decreases fields@.len() - i,
{
    if i == fields.len() {
        let r: Vec<Vec<Scalar>> = Vec::new();
        proof {
            assert(r.deep_view() =~= spec_decode_row(
                fields@.skip(i as int),
                buf@.skip(off as int),
            ));
        }
        r
    } else {
        let blen = buf.len();
        proof {
            assert(fields@.skip(i as int)[0] == fields@[i as int]);
            assert(fields@.skip(i as int).skip(1) =~= fields@.skip(i + 1));
        }
        let c = counts[i];
        let kw = fields[i].kind.width();
        proof {
            lemma_mul_is_commutative(c as int, kw as int);
            assert(spec_row_width(fields@.skip(i as int)) == spec_field_width(fields@[i as int])
                + spec_row_width(fields@.skip(i + 1)));
            assert(c * kw == spec_field_width(fields@[i as int]));
        }
        let fw = c * kw;
        let es = decode_elems(&fields[i].kind, c, buf, off);
        let ghost esv = es@;
        let mut rest = decode_from(fields, counts, i + 1, buf, off + fw);
        let ghost restq = rest@;
        let ghost restv = rest.deep_view();
        let mut r: Vec<Vec<Scalar>> = Vec::new();
        r.push(es);
        r.append(&mut rest);
        proof {
            assert(buf@.skip(off as int).skip(fw as int) =~= buf@.skip(off + fw));
            let lhs = r.deep_view();
            let rhs = spec_decode_row(fields@.skip(i as int), buf@.skip(off as int));
            assert(rhs[0] == spec_decode_elems(
                fields@[i as int].kind,
                spec_shape_count(fields@[i as int].shape@),
                buf@.skip(off as int),
            ));
            assert(r@[0]@ == esv);
            assert(lhs[0] =~= esv);
            assert(rhs.skip(1) =~= spec_decode_row(fields@.skip(i + 1), buf@.skip(off + fw)));
            assert forall|n: int| 0 <= n < lhs.len() implies lhs[n] == rhs[n] by {
                if n == 0 {
                } else {
                    assert(r@[n] == restq[n - 1]);
                    assert(lhs[n] == restv[n - 1]);
                    assert(rhs[n] == rhs.skip(1)[n - 1]);
                }
            }
            assert(lhs =~= rhs);
        }
        r
    }
}

} // verus!
