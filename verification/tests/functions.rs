use polars_core::chunked::{BooleanChunked, ListChunked, NumericChunked, Series, Utf8Chunked};
use polars_core::dtypes::{Field, DataType, PolarsError};
use polars_core::functions::{argsort_by, concat_str, IterBroadCast};

#[test]
fn test_concat_str() {
    let a = Series::Utf8(Utf8Chunked::new_from_slice("a", &["foo", "bar"]));
    let b = Series::Utf8(Utf8Chunked::new_from_slice("b", &["spam", "ham"]));

    let mut cols = vec![a, b];
    let out = concat_str(&cols, "_").unwrap();
    assert_eq!(
        out.to_vec(),
        vec![Some(b"foo_spam".to_vec()), Some(b"bar_ham".to_vec())]
    );

    let c = Series::Utf8(Utf8Chunked::new_from_slice("b", &["literal"]));
    cols.push(c);
    let out = concat_str(&cols, "_").unwrap();
    assert_eq!(
        out.to_vec(),
        vec![
            Some(b"foo_spam_literal".to_vec()),
            Some(b"bar_ham_literal".to_vec())
        ]
    );
}

#[test]
fn test_concat_str_broadcast() {
    // one streaming column of length 3 and one constant: the constant
    // repeats for all three rows
    let s = Series::Utf8(Utf8Chunked::new_from_slice("s", &["a", "b", "c"]));
    let k = Series::Utf8(Utf8Chunked::new_from_slice("k", &["K"]));
    let out = concat_str(&[s, k], "_").unwrap();
    assert_eq!(
        out.to_vec(),
        vec![
            Some(b"a_K".to_vec()),
            Some(b"b_K".to_vec()),
            Some(b"c_K".to_vec())
        ]
    );
}

#[test]
fn test_concat_str_null_propagation() {
    // any null source makes the whole output row null
    let a = Series::Utf8(Utf8Chunked::new_from_opt_slice(
        "a",
        &[Some("a"), None, Some("c")],
    ));
    let b = Series::Utf8(Utf8Chunked::new_from_slice("b", &["x", "y", "z"]));
    let out = concat_str(&[a, b], "-").unwrap();
    assert_eq!(
        out.to_vec(),
        vec![Some(b"a-x".to_vec()), None, Some(b"c-z".to_vec())]
    );
}

#[test]
fn test_concat_str_errors() {
    // no input at all: a no-data error, before any builder exists
    match concat_str(&[], "_") {
        Err(PolarsError::NoData(_)) => (),
        _ => panic!(),
    }
    // lengths 2 and 3, neither of them 1: a length-mismatch error
    let a = Series::Utf8(Utf8Chunked::new_from_slice("a", &["x", "y"]));
    let b = Series::Utf8(Utf8Chunked::new_from_slice("b", &["p", "q", "r"]));
    match concat_str(&[a, b], "_") {
        Err(PolarsError::ValueError(_)) => (),
        _ => panic!(),
    }
}

#[test]
fn test_concat_str_cast_numeric_and_bool() {
    let n = Series::Numeric(NumericChunked::new_from_opt_slice(
        "n",
        &[Some(-12), Some(0), None],
    ));
    let s = Series::Utf8(Utf8Chunked::new_from_slice("s", &["a", "b", "c"]));
    let out = concat_str(&[n, s], "_").unwrap();
    assert_eq!(
        out.to_vec(),
        vec![Some(b"-12_a".to_vec()), Some(b"0_b".to_vec()), None]
    );

    let t = Series::Boolean(BooleanChunked::new_from_slice("t", &[true, false]));
    let out = concat_str(&[t], "_").unwrap();
    assert_eq!(
        out.to_vec(),
        vec![Some(b"true".to_vec()), Some(b"false".to_vec())]
    );
}

#[test]
fn test_concat_str_list_rejected() {
    let list = Series::List(ListChunked {
        field: Field::new("l", DataType::List(Box::new(DataType::Numeric))),
        chunks: vec![],
    });
    let s = Series::Utf8(Utf8Chunked::new_from_slice("s", &["a"]));
    match concat_str(&[list, s], "_") {
        Err(PolarsError::InvalidOperation(_)) => (),
        _ => panic!(),
    }
}

#[test]
fn test_iter_broadcast() {
    let mut constant = IterBroadCast::Value(Some(b"k".to_vec()));
    assert_eq!(constant.next(), Some(Some(b"k".to_vec())));
    assert_eq!(constant.next(), Some(Some(b"k".to_vec())));

    let mut streaming = IterBroadCast::Column {
        rows: vec![Some(b"a".to_vec()), None],
        pos: 0,
    };
    assert_eq!(streaming.next(), Some(Some(b"a".to_vec())));
    assert_eq!(streaming.next(), Some(None));
    assert_eq!(streaming.next(), None);
}

#[test]
fn test_series_accessors() {
    let s = Series::Utf8(Utf8Chunked::new_from_slice("s", &["x"]));
    assert!(s.utf8().is_ok());
    assert!(s.bool().is_err());
    assert!(s.numeric().is_err());
    assert_eq!(s.name(), "s");
}

#[test]
fn test_argsort_by_single_column() {
    let a = Series::Numeric(NumericChunked::new_from_opt_slice(
        "a",
        &[Some(3), Some(1), None, Some(2)],
    ));
    let out = argsort_by(&[a], &[false]).unwrap();
    // the null row sorts first, then the values ascending
    assert_eq!(out.to_vec(), vec![Some(2), Some(1), Some(3), Some(0)]);
}

#[test]
fn test_argsort_by_reverse_and_ties() {
    // the first column decides until it holds duplicates, then the second,
    // reversed, takes over; full ties keep their original order
    let a = Series::Numeric(NumericChunked::new_from_slice("a", &[1, 1, 0, 1]));
    let b = Series::Utf8(Utf8Chunked::new_from_slice("b", &["x", "z", "m", "x"]));
    let out = argsort_by(&[a, b], &[false, true]).unwrap();
    assert_eq!(out.to_vec(), vec![Some(2), Some(1), Some(0), Some(3)]);
}

#[test]
fn test_argsort_by_errors() {
    let a = Series::Numeric(NumericChunked::new_from_slice("a", &[1, 2]));
    match argsort_by(&[a], &[false, true]) {
        Err(PolarsError::ValueError(_)) => (),
        _ => panic!(),
    }
    // the count mismatch is reported even with no column at all
    match argsort_by(&[], &[false]) {
        Err(PolarsError::ValueError(_)) => (),
        _ => panic!(),
    }
    let a = Series::Numeric(NumericChunked::new_from_slice("a", &[1, 2]));
    let b = Series::Numeric(NumericChunked::new_from_slice("b", &[1, 2, 3]));
    match argsort_by(&[a, b], &[false, false]) {
        Err(PolarsError::ValueError(_)) => (),
        _ => panic!(),
    }
    let l = Series::List(ListChunked {
        field: Field::new("l", DataType::List(Box::new(DataType::Numeric))),
        chunks: vec![],
    });
    match argsort_by(&[l], &[false]) {
        Err(PolarsError::InvalidOperation(_)) => (),
        _ => panic!(),
    }
}
