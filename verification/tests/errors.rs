//! Each error variant, produced through the public entry points.

use npy::{Error, FieldDescr, RecordType, ScalarKind};

fn scalar_field(name: &str, kind: ScalarKind) -> FieldDescr {
    FieldDescr { name: String::from(name), kind, shape: Vec::new() }
}

#[test]
fn empty_record_is_rejected() {
    let r = RecordType::new(Vec::new());
    assert_eq!(r.unwrap_err(), Error::EmptyRecord);
}

#[test]
fn oversized_row_width_is_rejected() {
    let r = RecordType::new(vec![FieldDescr {
        name: String::from("huge"),
        kind: ScalarKind::U8,
        shape: vec![usize::MAX, 2],
    }]);
    assert_eq!(r.unwrap_err(), Error::RecordTooWide);
}

#[test]
fn zero_extent_makes_a_zero_width_field() {
    let rt = RecordType::new(vec![
        scalar_field("a", ScalarKind::U32),
        FieldDescr { name: String::from("none"), kind: ScalarKind::F64, shape: vec![3, 0] },
    ])
    .unwrap();
    assert_eq!(rt.row_byte_width(), 4);
}

#[test]
fn oversized_header_is_rejected() {
    let name: String = std::iter::repeat('n').take(70000).collect();
    let rt = RecordType::new(vec![scalar_field(&name, ScalarKind::I32)]).unwrap();
    match npy::OutFile::new(rt) {
        Err(e) => assert_eq!(e, Error::HeaderTooLong),
        Ok(_) => panic!("oversized header was accepted"),
    }
}

#[test]
fn oversized_header_rejected_by_write_all() {
    let name: String = std::iter::repeat('n').take(70000).collect();
    let rt = RecordType::new(vec![scalar_field(&name, ScalarKind::I32)]).unwrap();
    let r = npy::write_all(rt, &Vec::new());
    assert_eq!(r.unwrap_err(), Error::HeaderTooLong);
}

#[test]
fn largest_header_that_fits_is_accepted() {
    // grow the field name until the header is as long as it may be, and
    // check the boundary in both directions
    let mut fits = 0usize;
    let mut over = 0usize;
    for extra in 65400..65600usize {
        let name: String = std::iter::repeat('n').take(extra).collect();
        let rt = RecordType::new(vec![scalar_field(&name, ScalarKind::I32)]).unwrap();
        match npy::OutFile::new(rt) {
            Ok(w) => {
                fits += 1;
                assert!(w.out.len() - 10 <= 65535);
            }
            Err(e) => {
                over += 1;
                assert_eq!(e, Error::HeaderTooLong);
            }
        }
    }
    assert!(fits > 0 && over > 0);
}

#[test]
fn oversized_row_count_is_rejected_at_close() {
    // no test can push 10^19 rows, so forge the writer's count to reach the
    // error path: a count of twenty decimal digits cannot be patched into
    // the nineteen reserved bytes
    let rt = RecordType::new(vec![scalar_field("a", ScalarKind::U8)]).unwrap();
    let mut w = npy::OutFile::new(rt).unwrap();
    let before = w.out.clone();
    w.len = 10_000_000_000_000_000_000usize;
    assert_eq!(w.close().unwrap_err(), Error::RowCountTooWide);
    assert_eq!(w.out, before);
}
