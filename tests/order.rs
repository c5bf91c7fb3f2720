use std::cmp::Ordering;

use ext_sort::buffer::MemSize;
use ext_sort::order::{ByFirst, Compare, Natural, Reversed};
use ext_sort::source::{Source, VecSource};

#[test]
fn natural_orders_integers() {
    assert_eq!(Natural.compare(&1i32, &2i32), Ordering::Less);
    assert_eq!(Natural.compare(&2i64, &2i64), Ordering::Equal);
    assert_eq!(Natural.compare(&9u64, &2u64), Ordering::Greater);
}

#[test]
fn reversed_flips_the_order() {
    let c = Reversed { inner: Natural };
    assert_eq!(c.compare(&1i32, &2i32), Ordering::Greater);
    assert_eq!(c.compare(&3i32, &3i32), Ordering::Equal);
    assert_eq!(c.compare(&4i32, &2i32), Ordering::Less);
}

#[test]
fn by_first_ignores_the_second_field() {
    let c = ByFirst { inner: Natural };
    assert_eq!(c.compare(&(1i32, 'z'), &(1i32, 'a')), Ordering::Equal);
    assert_eq!(c.compare(&(0i32, 'z'), &(1i32, 'a')), Ordering::Less);
}

#[test]
fn byte_strings_compare_lexicographically() {
    let a: Vec<u8> = b"apple".to_vec();
    let b: Vec<u8> = b"apricot".to_vec();
    let p: Vec<u8> = b"app".to_vec();
    assert_eq!(Natural.compare(&a, &b), Ordering::Less);
    assert_eq!(Natural.compare(&b, &a), Ordering::Greater);
    assert_eq!(Natural.compare(&p, &a), Ordering::Less);
    assert_eq!(Natural.compare(&a, &p), Ordering::Greater);
    assert_eq!(Natural.compare(&a, &a.clone()), Ordering::Equal);
    assert_eq!(Natural.compare(&Vec::new(), &p), Ordering::Less);
}

#[test]
fn byte_string_size_counts_its_bytes() {
    let mut v: Vec<u8> = Vec::with_capacity(10);
    assert_eq!(v.mem_size(), 0);
    v.extend_from_slice(b"hello");
    assert_eq!(v.mem_size(), 5);
    assert_eq!(5i32.mem_size(), 4);
    assert_eq!(5i64.mem_size(), 8);
    assert_eq!(5u64.mem_size(), 8);
}

#[test]
fn vec_source_yields_in_order() {
    let mut s = VecSource::<i32, String>::new(vec![Ok(1), Err("bad".to_string()), Ok(3)]);
    assert_eq!(s.next(), Some(Ok(1)));
    assert_eq!(s.next(), Some(Err("bad".to_string())));
    assert_eq!(s.next(), Some(Ok(3)));
    assert_eq!(s.next(), None);
    assert_eq!(s.next(), None);
}
