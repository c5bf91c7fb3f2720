use std::io::{self, ErrorKind};

use ext_sort::merger::BinaryHeapMerger;
use ext_sort::order::{ByFirst, Natural, Reversed};
use ext_sort::source::VecSource;

fn test_error() -> io::Error {
    io::Error::new(ErrorKind::Other, "test error")
}

fn merge_all(chunks: Vec<Vec<Result<i32, io::Error>>>) -> Vec<Result<i32, io::Error>> {
    let sources: Vec<VecSource<i32, io::Error>> = chunks.into_iter().map(VecSource::new).collect();
    let mut merger = BinaryHeapMerger::new(sources, Natural);
    let mut out = Vec::new();
    while let Some(item) = merger.next() {
        out.push(item);
    }
    out
}

fn same(actual: &[Result<i32, io::Error>], expected: &[Result<i32, io::Error>]) -> bool {
    actual.len() == expected.len()
        && actual.iter().zip(expected).all(|pair| match pair {
            (Ok(a), Ok(b)) => a == b,
            (Err(a), Err(b)) => a.to_string() == b.to_string(),
            _ => false,
        })
}

#[test]
fn test_merger_no_chunks() {
    assert!(same(&merge_all(vec![]), &[]));
}

#[test]
fn test_merger_empty_chunks() {
    assert!(same(&merge_all(vec![vec![], vec![]]), &[]));
}

#[test]
fn test_merger_sorted_chunks() {
    let out = merge_all(vec![vec![Ok(4), Ok(5), Ok(7)], vec![Ok(1), Ok(6)], vec![Ok(3)], vec![]]);
    assert!(same(&out, &[Ok(1), Ok(3), Ok(4), Ok(5), Ok(6), Ok(7)]));
}

#[test]
fn test_merger_only_error() {
    let out = merge_all(vec![vec![Err(test_error())]]);
    assert!(same(&out, &[Err(test_error())]));
}

#[test]
fn test_merger_error_after_item() {
    let out = merge_all(vec![vec![Ok(3), Err(test_error())], vec![Ok(1), Ok(2)]]);
    assert!(same(&out, &[Ok(1), Ok(2), Err(test_error())]));
}

#[test]
fn merger_resumes_after_error_at_start() {
    let out = merge_all(vec![vec![Ok(2)], vec![Err(test_error())], vec![Ok(1), Ok(3)]]);
    assert!(same(&out, &[Err(test_error()), Ok(1), Ok(2), Ok(3)]));
}

#[test]
fn merger_two_errors_at_start_come_in_run_order() {
    let first = io::Error::new(ErrorKind::Other, "first");
    let second = io::Error::new(ErrorKind::Other, "second");
    let out = merge_all(vec![vec![Err(first)], vec![Ok(5)], vec![Err(second)]]);
    assert!(same(
        &out,
        &[
            Err(io::Error::new(ErrorKind::Other, "first")),
            Err(io::Error::new(ErrorKind::Other, "second")),
            Ok(5)
        ]
    ));
}

#[test]
fn merger_breaks_ties_by_run_index() {
    let sources = vec![
        VecSource::<(i32, char), io::Error>::new(vec![Ok((1, 'a')), Ok((2, 'c'))]),
        VecSource::new(vec![Ok((1, 'b')), Ok((2, 'd'))]),
    ];
    let mut merger = BinaryHeapMerger::new(sources, ByFirst { inner: Natural });
    let mut out = Vec::new();
    while let Some(item) = merger.next() {
        out.push(item.unwrap());
    }
    assert_eq!(out, vec![(1, 'a'), (1, 'b'), (2, 'c'), (2, 'd')]);
}

#[test]
fn merger_descending_runs() {
    let sources = vec![
        VecSource::<i32, io::Error>::new(vec![Ok(9), Ok(4), Ok(1)]),
        VecSource::new(vec![Ok(8), Ok(5)]),
    ];
    let mut merger = BinaryHeapMerger::new(sources, Reversed { inner: Natural });
    let mut out = Vec::new();
    while let Some(item) = merger.next() {
        out.push(item.unwrap());
    }
    assert_eq!(out, vec![9, 8, 5, 4, 1]);
    assert!(merger.next().is_none());
}
