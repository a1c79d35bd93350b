//! Encode/decode round trips and row width checks for every scalar kind.

use npy::{FieldDescr, RecordType, Scalar, ScalarKind};

fn scalar_field(name: &str, kind: ScalarKind) -> FieldDescr {
    FieldDescr { name: String::from(name), kind, shape: Vec::new() }
}

fn all_kinds_type() -> RecordType {
    RecordType::new(vec![
        scalar_field("a", ScalarKind::I8),
        scalar_field("b", ScalarKind::I16),
        scalar_field("c", ScalarKind::I32),
        scalar_field("d", ScalarKind::I64),
        scalar_field("e", ScalarKind::U8),
        scalar_field("f", ScalarKind::U16),
        scalar_field("g", ScalarKind::U32),
        scalar_field("h", ScalarKind::U64),
        scalar_field("i", ScalarKind::F32),
        scalar_field("j", ScalarKind::F64),
    ])
    .unwrap()
}

fn all_kinds_row() -> Vec<Vec<Scalar>> {
    vec![
        vec![Scalar::I8(-7)],
        vec![Scalar::I16(-30000)],
        vec![Scalar::I32(-2)],
        vec![Scalar::I64(i64::MIN)],
        vec![Scalar::U8(255)],
        vec![Scalar::U16(65535)],
        vec![Scalar::U32(0xdead_beef)],
        vec![Scalar::U64(u64::MAX)],
        vec![Scalar::F32Bits((-0.5f32).to_bits())],
        vec![Scalar::F64Bits(6.25f64.to_bits())],
    ]
}

#[test]
fn row_byte_width_is_sum_of_field_widths() {
    let rt = all_kinds_type();
    assert_eq!(rt.row_byte_width(), 1 + 2 + 4 + 8 + 1 + 2 + 4 + 8 + 4 + 8);
    let arr = RecordType::new(vec![FieldDescr {
        name: String::from("m"),
        kind: ScalarKind::I16,
        shape: vec![4, 5],
    }])
    .unwrap();
    assert_eq!(arr.row_byte_width(), 2 * 20);
}

#[test]
fn decode_of_encode_restores_every_kind() {
    let rt = all_kinds_type();
    let row = all_kinds_row();
    let mut bytes: Vec<u8> = Vec::new();
    rt.encode(&row, &mut bytes);
    assert_eq!(bytes.len(), rt.row_byte_width());
    let back = rt.decode(&bytes);
    assert_eq!(back, row);
}

#[test]
fn decode_of_encode_restores_array_field() {
    let rt = RecordType::new(vec![
        scalar_field("n", ScalarKind::I32),
        FieldDescr { name: String::from("m"), kind: ScalarKind::F32, shape: vec![2, 2] },
    ])
    .unwrap();
    let row = vec![
        vec![Scalar::I32(41)],
        vec![
            Scalar::F32Bits(1.0f32.to_bits()),
            Scalar::F32Bits(2.0f32.to_bits()),
            Scalar::F32Bits(3.0f32.to_bits()),
            Scalar::F32Bits(4.0f32.to_bits()),
        ],
    ];
    let mut bytes: Vec<u8> = Vec::new();
    rt.encode(&row, &mut bytes);
    assert_eq!(bytes.len(), 4 + 16);
    let back = rt.decode(&bytes);
    assert_eq!(back, row);
}

#[test]
fn encoding_is_little_endian() {
    let rt = RecordType::new(vec![scalar_field("v", ScalarKind::U32)]).unwrap();
    let row = vec![vec![Scalar::U32(0x0403_0201)]];
    let mut bytes: Vec<u8> = Vec::new();
    rt.encode(&row, &mut bytes);
    assert_eq!(bytes, vec![0x01, 0x02, 0x03, 0x04]);
}

#[test]
fn decode_reads_fields_at_cumulative_offsets() {
    let rt = RecordType::new(vec![
        scalar_field("x", ScalarKind::U8),
        scalar_field("y", ScalarKind::U16),
        scalar_field("z", ScalarKind::U8),
    ])
    .unwrap();
    let bytes = vec![0xaa, 0x34, 0x12, 0xbb];
    let row = rt.decode(&bytes);
    assert_eq!(
        row,
        vec![vec![Scalar::U8(0xaa)], vec![Scalar::U16(0x1234)], vec![Scalar::U8(0xbb)]]
    );
}
