use polars_core::builder::{
    BooleanChunkedBuilder, PrimitiveChunkedBuilder, Utf8ChunkedBuilder, Utf8ChunkedBuilderCow,
};
use polars_core::chunk::get_bitmap;
use polars_core::chunked::{AnyValue, BooleanChunked, NumericChunked, Series, Utf8Chunked};
use polars_core::dtypes::DataType;
use polars_core::list::{
    get_list_builder, ListBooleanChunkedBuilder, ListPrimitiveChunkedBuilder,
    ListUtf8ChunkedBuilder,
};

#[test]
fn test_primitive_builder() {
    let mut builder = PrimitiveChunkedBuilder::new("foo", 6);
    let values = [Some(1i64), None, Some(2), Some(3), None, Some(4)];
    for val in values.iter() {
        builder.append_option(*val);
    }
    let ca = builder.finish();
    assert_eq!(ca.to_vec(), values.to_vec());
}

#[test]
fn test_list_builder() {
    let mut builder = ListPrimitiveChunkedBuilder::new("a", 10, 5);

    // create a series containing two chunks
    let mut s1 = Series::Numeric(NumericChunked::new_from_slice("a", &[1, 2, 3]));
    let s2 = Series::Numeric(NumericChunked::new_from_slice("b", &[4, 5, 6]));
    s1.append(&s2).unwrap();

    builder.append_series(&s1);
    builder.append_series(&s2);
    let ls = builder.finish();
    if let AnyValue::List(s) = ls.get_any_value(0) {
        // many chunks are aggregated to one in the list column
        assert_eq!(s.len(), 6)
    } else {
        panic!()
    }
    if let AnyValue::List(s) = ls.get_any_value(1) {
        assert_eq!(s.len(), 3)
    } else {
        panic!()
    }
    // the same rows collected through the factory handle
    let mut b2 = get_list_builder(&DataType::Numeric, 5, 10, "a");
    b2.append_series(&s1);
    b2.append_series(&s2);
    let out = b2.finish();
    assert_eq!(out.get(0).unwrap().len(), 6);
    assert_eq!(out.get(1).unwrap().len(), 3);
}

#[test]
fn test_list_str_builder() {
    let mut builder = ListUtf8ChunkedBuilder::new("a", 10, 10);
    builder.append_series(&Series::Utf8(Utf8Chunked::new_from_slice("", &["foo", "bar"])));
    let ca = builder.finish();
    if let AnyValue::List(s) = ca.get_any_value(0) {
        assert_eq!(s.len(), 2);
        if let AnyValue::Utf8(v) = s.get_any_value(0) {
            assert_eq!(v, b"foo".to_vec());
        } else {
            panic!()
        }
        if let AnyValue::Utf8(v) = s.get_any_value(1) {
            assert_eq!(v, b"bar".to_vec());
        } else {
            panic!()
        }
    } else {
        panic!()
    }
}

#[test]
fn test_boolean_round_trip() {
    let mut builder = BooleanChunkedBuilder::new("b", 4);
    let values = [Some(true), None, Some(false), Some(true)];
    for val in values.iter() {
        builder.append_option(*val);
    }
    let ca = builder.finish();
    assert_eq!(ca.to_vec(), values.to_vec());
}

#[test]
fn test_utf8_round_trip() {
    let mut builder = Utf8ChunkedBuilder::new("s", 3, 16);
    builder.append_value("hello");
    builder.append_null();
    builder.append_option(Some("world"));
    let ca = builder.finish();
    assert_eq!(
        ca.to_vec(),
        vec![Some(b"hello".to_vec()), None, Some(b"world".to_vec())]
    );
    assert_eq!(ca.get(0), Some(b"hello".to_vec()));
    assert_eq!(ca.get(1), None);
    assert_eq!(ca.null_count(), 1);
}

#[test]
fn test_utf8_cow_adapter() {
    let mut builder = Utf8ChunkedBuilderCow::new("s", 8);
    builder.append_value("owned");
    builder.append_null();
    let ca = builder.finish();
    assert_eq!(ca.to_vec(), vec![Some(b"owned".to_vec()), None]);
}

#[test]
fn test_three_state_rows() {
    // a null list, an empty list and a one-element list stay distinct
    let mut builder = ListPrimitiveChunkedBuilder::new("a", 4, 4);
    let empty = Series::Numeric(NumericChunked::new_from_slice("e", &[]));
    let one = Series::Numeric(NumericChunked::new_from_slice("o", &[10]));
    builder.append_null();
    builder.append_series(&empty);
    builder.append_series(&one);
    let ls = builder.finish();
    assert_eq!(ls.len(), 3);
    assert_eq!(ls.null_count(), 1);
    match ls.get_any_value(0) {
        AnyValue::Null => (),
        _ => panic!(),
    }
    match ls.get_any_value(1) {
        AnyValue::List(s) => assert_eq!(s.len(), 0),
        _ => panic!(),
    }
    match ls.get_any_value(2) {
        AnyValue::List(s) => {
            assert_eq!(s.len(), 1);
            match s.get_any_value(0) {
                AnyValue::Numeric(v) => assert_eq!(v, 10),
                _ => panic!(),
            }
        },
        _ => panic!(),
    }
}

#[test]
fn test_bulk_vs_per_element() {
    // a zero-null sub-column split into two chunks flattens identically to
    // the same values in one chunk
    let mut split = Series::Numeric(NumericChunked::new_from_slice("a", &[1, 2, 3]));
    let tail = Series::Numeric(NumericChunked::new_from_slice("a", &[4, 5, 6]));
    split.append(&tail).unwrap();
    let fused = Series::Numeric(NumericChunked::new_from_slice("a", &[1, 2, 3, 4, 5, 6]));

    let mut b1 = ListPrimitiveChunkedBuilder::new("a", 1, 6);
    b1.append_series(&split);
    let mut b2 = ListPrimitiveChunkedBuilder::new("a", 1, 6);
    b2.append_series(&fused);

    let r1 = match b1.finish().get(0) {
        Some(Series::Numeric(ca)) => ca.to_vec(),
        _ => panic!(),
    };
    let r2 = match b2.finish().get(0) {
        Some(Series::Numeric(ca)) => ca.to_vec(),
        _ => panic!(),
    };
    assert_eq!(r1, r2);
    assert_eq!(r1, vec![Some(1), Some(2), Some(3), Some(4), Some(5), Some(6)]);
}

#[test]
fn test_per_element_nulls_preserved() {
    // nulls inside a sub-column stay per-element nulls in the list row
    let sub = Series::Numeric(NumericChunked::new_from_opt_slice(
        "a",
        &[Some(7), None, Some(9)],
    ));
    let mut builder = ListPrimitiveChunkedBuilder::new("a", 1, 3);
    builder.append_series(&sub);
    let ls = builder.finish();
    match ls.get(0) {
        Some(Series::Numeric(ca)) => {
            assert_eq!(ca.to_vec(), vec![Some(7), None, Some(9)]);
        },
        _ => panic!(),
    }
}

#[test]
fn test_list_append_slice() {
    let mut builder = ListPrimitiveChunkedBuilder::new("a", 3, 4);
    builder.append_slice(Some(&[1, 2]));
    builder.append_slice(None);
    builder.append_slice(Some(&[3]));
    let ls = builder.finish();
    assert_eq!(ls.len(), 3);
    assert!(ls.get(1).is_none());
    match ls.get(2) {
        Some(Series::Numeric(ca)) => assert_eq!(ca.to_vec(), vec![Some(3)]),
        _ => panic!(),
    }
}

#[test]
fn test_list_boolean_builder() {
    let mut builder = ListBooleanChunkedBuilder::new("a", 2, 3);
    let sub = Series::Boolean(BooleanChunked::new_from_opt_slice(
        "b",
        &[Some(true), None, Some(false)],
    ));
    builder.append_series(&sub);
    builder.append_null();
    let ls = builder.finish();
    assert_eq!(ls.len(), 2);
    match ls.get(0) {
        Some(Series::Boolean(ca)) => {
            assert_eq!(ca.to_vec(), vec![Some(true), None, Some(false)]);
        },
        _ => panic!(),
    }
    assert!(ls.get(1).is_none());
}

#[test]
fn test_list_utf8_multi_chunk() {
    let mut sub = Series::Utf8(Utf8Chunked::new_from_opt_slice("s", &[Some("ab"), None]));
    let tail = Series::Utf8(Utf8Chunked::new_from_slice("s", &["xyz"]));
    sub.append(&tail).unwrap();
    let mut builder = ListUtf8ChunkedBuilder::new("a", 1, 8);
    builder.append_series(&sub);
    let ls = builder.finish();
    match ls.get(0) {
        Some(Series::Utf8(ca)) => {
            assert_eq!(
                ca.to_vec(),
                vec![Some(b"ab".to_vec()), None, Some(b"xyz".to_vec())]
            );
        },
        _ => panic!(),
    }
}

#[test]
fn test_factory_dispatch() {
    let mut bu = get_list_builder(&DataType::Utf8, 4, 2, "u");
    bu.append_series(&Series::Utf8(Utf8Chunked::new_from_slice("s", &["a"])));
    bu.append_null();
    let lu = bu.finish();
    assert_eq!(lu.len(), 2);
    assert_eq!(lu.null_count(), 1);

    let mut bb = get_list_builder(&DataType::Boolean, 2, 1, "b");
    bb.append_opt_series(Some(&Series::Boolean(BooleanChunked::new_from_slice(
        "t",
        &[true, false],
    ))));
    let lb = bb.finish();
    match lb.get(0) {
        Some(Series::Boolean(ca)) => assert_eq!(ca.to_vec(), vec![Some(true), Some(false)]),
        _ => panic!(),
    }
}

#[test]
fn test_get_bitmap() {
    let ca = BooleanChunked::new_from_opt_slice("b", &[Some(true), None, None]);
    let mut builder = ListBooleanChunkedBuilder::new("a", 1, 3);
    builder.append_series(&Series::Boolean(ca));
    let finished = builder.finish();
    match finished.get(0) {
        Some(Series::Boolean(inner)) => {
            let (nulls, bitmap) = get_bitmap(&polars_core::chunk::InnerChunk::Boolean(
                inner.chunks.into_iter().next().unwrap(),
            ));
            assert_eq!(nulls, 2);
            assert_eq!(bitmap, Some(vec![true, false, false]));
        },
        _ => panic!(),
    }
}

#[test]
fn test_series_append_mismatch() {
    let mut a = Series::Numeric(NumericChunked::new_from_slice("a", &[1]));
    let b = Series::Utf8(Utf8Chunked::new_from_slice("b", &["x"]));
    assert!(a.append(&b).is_err());
    // the column is untouched on the error path
    assert_eq!(a.len(), 1);
}
