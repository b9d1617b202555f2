use poly_list::{Container, DimensionMismatch, Polynomial, PolynomialList};

fn storage() -> Vec<u64> {
    vec![1, 2, 3, 4, 5, 6, 7, 8, 9, 10, 11, 12]
}

fn coeffs(p: &Polynomial<&[u64]>) -> Vec<u64> {
    p.data.to_vec()
}

#[test]
fn matching_dimensions_are_accepted() {
    let list = PolynomialList::try_new(storage(), 4, 3).unwrap();
    assert_eq!(list.container_len(), 12);
    assert_eq!(list.count, 3);
    assert_eq!(list.polynomial_size, 4);

    let made = PolynomialList::new(storage(), 4, 3);
    assert_eq!(made.container_len(), 12);
}

#[test]
fn mismatched_dimensions_are_rejected() {
    assert_eq!(PolynomialList::try_new(storage(), 4, 4).unwrap_err(), DimensionMismatch);
    assert_eq!(PolynomialList::try_new(storage(), 5, 3).unwrap_err(), DimensionMismatch);
    assert_eq!(PolynomialList::try_new(storage(), 4, 2).unwrap_err(), DimensionMismatch);
    let data: &[u64] = &[];
    assert!(PolynomialList::try_new(data, 1, 1).is_err());
}

#[test]
fn overflowing_dimensions_are_rejected() {
    let data = storage();
    let view: &[u64] = &data;
    assert!(PolynomialList::try_new(view, usize::MAX, 2).is_err());
    assert!(PolynomialList::try_new(view, 2, usize::MAX / 2 + 1).is_err());
}

#[test]
fn empty_list_is_accepted() {
    let list = PolynomialList::try_new(Vec::new(), 8, 0).unwrap();
    assert_eq!(list.container_len(), 0);
    let view = PolynomialList::new(&list.data[..], 8, 0);
    assert!(view.iter_polynomial().is_empty());
    assert!(view.sublist_iter(1).is_empty());
}

#[test]
fn unwrapping_returns_the_storage() {
    let list = PolynomialList::new(storage(), 4, 3);
    assert_eq!(list.into_data(), storage());

    let data = storage();
    let view = PolynomialList::new(&data[..], 6, 2);
    let back = view.into_data();
    assert_eq!(back, &data[..]);
    assert_eq!(back.as_ptr(), data.as_ptr());
}

#[test]
fn polynomials_cover_the_storage_in_order() {
    let data = storage();
    let list = PolynomialList::new(&data[..], 4, 3);
    let polys = list.iter_polynomial();
    assert_eq!(polys.len(), 3);
    assert_eq!(coeffs(&polys[0]), vec![1, 2, 3, 4]);
    assert_eq!(coeffs(&polys[1]), vec![5, 6, 7, 8]);
    assert_eq!(coeffs(&polys[2]), vec![9, 10, 11, 12]);
    assert!(polys.iter().all(|p| p.polynomial_size == 4));
    let joined: Vec<u64> = polys.iter().flat_map(|p| p.data.iter().copied()).collect();
    assert_eq!(joined, data);
}

#[test]
fn reverse_traversal_mirrors_forward() {
    let data = storage();
    let list = PolynomialList::new(&data[..], 4, 3);
    let backward: Vec<Vec<u64>> = list.iter_polynomial().iter().rev().map(coeffs).collect();
    assert_eq!(backward, vec![vec![9, 10, 11, 12], vec![5, 6, 7, 8], vec![1, 2, 3, 4]]);
    let mut forward: Vec<Vec<u64>> = list.iter_polynomial().iter().map(coeffs).collect();
    forward.reverse();
    assert_eq!(backward, forward);
}

#[test]
fn traversal_can_be_repeated() {
    let data = storage();
    let list = PolynomialList::new(&data[..], 3, 4);
    let first: Vec<Vec<u64>> = list.iter_polynomial().iter().map(coeffs).collect();
    let second: Vec<Vec<u64>> = list.iter_polynomial().iter().map(coeffs).collect();
    assert_eq!(first, second);
    assert_eq!(first[3], vec![10, 11, 12]);
}

#[test]
fn exclusive_views_do_not_overlap() {
    let mut data = storage();
    let mut list = PolynomialList::new(&mut data[..], 4, 3);
    {
        let mut polys = list.iter_polynomial();
        assert_eq!(polys.len(), 3);
        assert_eq!(polys[1].data.to_vec(), vec![5, 6, 7, 8]);
        polys[0].data[0] = 0;
        polys[2].data[0] = 99;
    }
    let view = list.as_view();
    let read: Vec<Vec<u64>> = view.iter_polynomial().iter().map(coeffs).collect();
    assert_eq!(read, vec![vec![0, 2, 3, 4], vec![5, 6, 7, 8], vec![99, 10, 11, 12]]);
    assert_eq!(data, vec![0, 2, 3, 4, 5, 6, 7, 8, 99, 10, 11, 12]);
}

#[test]
fn exclusive_views_fill_every_polynomial() {
    let mut data = storage();
    let mut list = PolynomialList::new(&mut data[..], 2, 6);
    for (i, p) in list.iter_polynomial().into_iter().enumerate() {
        for c in p.data.iter_mut() {
            *c = i as u64;
        }
    }
    assert_eq!(data, vec![0, 0, 1, 1, 2, 2, 3, 3, 4, 4, 5, 5]);
}

#[test]
fn sublists_of_one_cover_everything() {
    let data = storage();
    let list = PolynomialList::new(&data[..], 4, 3);
    let subs = list.sublist_iter(1);
    assert_eq!(subs.len(), 3);
    assert!(subs.iter().all(|s| s.count == 1 && s.polynomial_size == 4));
    assert_eq!(subs[0].data, &[1, 2, 3, 4][..]);
    assert_eq!(subs[1].data, &[5, 6, 7, 8][..]);
    assert_eq!(subs[2].data, &[9, 10, 11, 12][..]);
    let joined: Vec<u64> = subs.iter().flat_map(|s| s.data.iter().copied()).collect();
    assert_eq!(joined, data);
}

#[test]
fn sublists_drop_the_remainder() {
    let data: Vec<u64> = (1..=10).collect();
    let list = PolynomialList::new(&data[..], 2, 5);
    let subs = list.sublist_iter(2);
    assert_eq!(subs.len(), 2);
    assert_eq!(subs[0].data, &[1, 2, 3, 4][..]);
    assert_eq!(subs[1].data, &[5, 6, 7, 8][..]);
    assert!(subs.iter().all(|s| s.count == 2 && s.polynomial_size == 2));
    let covered: usize = subs.iter().map(|s| s.count).sum();
    assert_eq!(covered, 4);
    let last: Vec<Vec<u64>> = subs.iter().rev().map(|s| s.data.to_vec()).collect();
    assert_eq!(last, vec![vec![5, 6, 7, 8], vec![1, 2, 3, 4]]);
}

#[test]
fn sublists_larger_than_the_list_are_none() {
    let data = storage();
    let list = PolynomialList::new(&data[..], 4, 3);
    assert!(list.sublist_iter(4).is_empty());
    assert!(list.sublist_iter(usize::MAX).is_empty());
    let whole = list.sublist_iter(3);
    assert_eq!(whole.len(), 1);
    assert_eq!(whole[0].data, &data[..]);
}

#[test]
fn sublists_iterate_their_own_polynomials() {
    let data = storage();
    let list = PolynomialList::new(&data[..], 2, 6);
    let subs = list.sublist_iter(3);
    assert_eq!(subs.len(), 2);
    let inner: Vec<Vec<u64>> = subs[1].iter_polynomial().iter().map(coeffs).collect();
    assert_eq!(inner, vec![vec![7, 8], vec![9, 10], vec![11, 12]]);
}

#[test]
fn shared_view_keeps_shape() {
    let data = storage();
    let list = PolynomialList::new(&data[..], 4, 3);
    let view = list.as_view();
    assert_eq!(view.count, 3);
    assert_eq!(view.polynomial_size, 4);
    assert_eq!(view.data, &data[..]);
    assert_eq!(view.container_len(), 12);
}

#[test]
fn exclusive_view_writes_reach_the_list() {
    let mut data = storage();
    let mut list = PolynomialList::new(&mut data[..], 6, 2);
    {
        let mut view = list.as_mut_view();
        assert_eq!(view.count, 2);
        assert_eq!(view.polynomial_size, 6);
        view.data[11] = 42;
        let polys = view.iter_polynomial();
        polys.into_iter().next().unwrap().data[0] = 7;
    }
    let read = list.as_view();
    assert_eq!(read.count, 2);
    assert_eq!(read.data, &[7, 2, 3, 4, 5, 6, 7, 8, 9, 10, 11, 42][..]);
}

#[test]
fn container_lengths() {
    let owned = storage();
    assert_eq!(owned.container_len(), 12);
    let shared: &[u64] = &owned[1..];
    assert_eq!(shared.container_len(), 11);
    let mut other = storage();
    let exclusive: &mut [u64] = &mut other[..5];
    assert_eq!(exclusive.container_len(), 5);
}

#[test]
fn polynomial_wraps_its_run() {
    let data = [3u64, 1, 4];
    let p = Polynomial::new(&data[..], 3);
    assert_eq!(p.polynomial_size, 3);
    assert_eq!(p.data, &[3, 1, 4][..]);
}
