//! End-to-end checks of the streaming writer and the produced file image.

use npy::{FieldDescr, OutFile, RecordType, Scalar, ScalarKind};

fn scalar_field(name: &str, kind: ScalarKind) -> FieldDescr {
    FieldDescr { name: String::from(name), kind, shape: Vec::new() }
}

fn id_score_type() -> RecordType {
    RecordType::new(vec![
        scalar_field("id", ScalarKind::I32),
        scalar_field("score", ScalarKind::F32),
    ])
    .unwrap()
}

fn header_len(file: &[u8]) -> usize {
    (file[8] as usize) | ((file[9] as usize) << 8)
}

fn header_string(file: &[u8]) -> String {
    let l = header_len(file);
    String::from_utf8(file[10..10 + l].to_vec()).unwrap()
}

#[test]
fn three_records() {
    let rt = id_score_type();
    let rows = vec![
        vec![vec![Scalar::I32(1)], vec![Scalar::F32Bits(0.5f32.to_bits())]],
        vec![vec![Scalar::I32(2)], vec![Scalar::F32Bits(1.5f32.to_bits())]],
        vec![vec![Scalar::I32(3)], vec![Scalar::F32Bits((-2.0f32).to_bits())]],
    ];
    let file = npy::write_all(rt, &rows).unwrap();

    // preamble: magic byte, "NUMPY", version 1.0
    assert_eq!(&file[0..6], &[0x93, b'N', b'U', b'M', b'P', b'Y']);
    assert_eq!(file[6], 1);
    assert_eq!(file[7], 0);

    let l = header_len(&file);
    assert_eq!((10 + l) % 16, 0);

    let header = header_string(&file);
    assert!(header.starts_with("{'descr': [('id', '<i4'), ('score', '<f4'), ]"));
    assert!(header.contains("'fortran_order': False"));
    assert!(header.contains("'shape': (3,), }"));
    assert!(header.ends_with('\n'));

    // exactly 3 rows * 8 bytes immediately after the header's end
    assert_eq!(file.len() - (10 + l), 24);
    let mut expected: Vec<u8> = Vec::new();
    expected.extend_from_slice(&1i32.to_le_bytes());
    expected.extend_from_slice(&0.5f32.to_le_bytes());
    expected.extend_from_slice(&2i32.to_le_bytes());
    expected.extend_from_slice(&1.5f32.to_le_bytes());
    expected.extend_from_slice(&3i32.to_le_bytes());
    expected.extend_from_slice(&(-2.0f32).to_le_bytes());
    assert_eq!(&file[10 + l..], &expected[..]);
}

#[test]
fn zero_rows_close() {
    let rt = id_score_type();
    let mut w = OutFile::new(rt).unwrap();
    w.close().unwrap();
    let file = w.out;
    let l = header_len(&file);
    assert_eq!((10 + l) % 16, 0);
    assert_eq!(file.len(), 10 + l);
    let header = header_string(&file);
    assert!(header.contains("'shape': (0,), }"));
}

#[test]
fn close_is_idempotent() {
    let rt = id_score_type();
    let mut w = OutFile::new(rt).unwrap();
    w.push(&vec![vec![Scalar::I32(9)], vec![Scalar::F32Bits(0)]]);
    w.close().unwrap();
    let first = w.out.clone();
    w.close().unwrap();
    assert_eq!(w.out, first);
}

#[test]
fn placeholder_offset_stable_across_pushes() {
    let rt = id_score_type();
    let mut w = OutFile::new(rt).unwrap();
    let pos = w.shape_pos;
    let header_bytes = w.out.clone();
    for i in 0..100i32 {
        w.push(&vec![vec![Scalar::I32(i)], vec![Scalar::F32Bits(0)]]);
        assert_eq!(w.shape_pos, pos);
        assert_eq!(&w.out[..header_bytes.len()], &header_bytes[..]);
    }
}

#[test]
fn reparse_row_count() {
    let rt = id_score_type();
    let mut rows = Vec::new();
    for i in 0..7i32 {
        rows.push(vec![vec![Scalar::I32(i)], vec![Scalar::F32Bits(0)]]);
    }
    let file = npy::write_all(rt, &rows).unwrap();
    let header = header_string(&file);
    let at = header.find("'shape': (").unwrap() + "'shape': (".len();
    let digits: String = header[at..].chars().take_while(|c| c.is_ascii_digit()).collect();
    assert_eq!(digits.parse::<usize>().unwrap(), 7);
}

#[test]
fn header_alignment_many_field_counts() {
    for n in 1..=50usize {
        let mut fields = Vec::new();
        for j in 0..n {
            let shape = match j % 3 {
                0 => Vec::new(),
                1 => vec![2usize],
                _ => vec![2usize, 3usize],
            };
            let kind = match j % 4 {
                0 => ScalarKind::I32,
                1 => ScalarKind::F64,
                2 => ScalarKind::U8,
                _ => ScalarKind::I16,
            };
            fields.push(FieldDescr { name: format!("field{}", j), kind, shape });
        }
        let rt = RecordType::new(fields).unwrap();
        let w = OutFile::new(rt).unwrap();
        let l = header_len(&w.out);
        assert_eq!((10 + l) % 16, 0, "misaligned header for {} fields", n);
        assert_eq!(w.out.len(), 10 + l);
    }
}

#[test]
fn length_field_is_little_endian() {
    // a long field name forces a header length above 255, so both bytes of
    // the 2-byte length field carry information
    let name: String = std::iter::repeat('x').take(300).collect();
    let rt = RecordType::new(vec![scalar_field(&name, ScalarKind::U8)]).unwrap();
    let w = OutFile::new(rt).unwrap();
    let l = w.out.len() - 10;
    assert!(l > 255);
    assert_eq!(w.out[8], (l & 0xff) as u8);
    assert_eq!(w.out[9], (l >> 8) as u8);
}

#[test]
fn array_field_header_shape() {
    let rt = RecordType::new(vec![
        scalar_field("a", ScalarKind::U16),
        FieldDescr { name: String::from("m"), kind: ScalarKind::F64, shape: vec![2, 3] },
    ])
    .unwrap();
    assert_eq!(rt.row_byte_width(), 2 + 8 * 6);
    let mut w = OutFile::new(rt).unwrap();
    w.close().unwrap();
    let header = header_string(&w.out);
    assert!(header.starts_with("{'descr': [('a', '<u2'), ('m', '<f8', (2,3,)), ]"));
}
