use ndarray::array::Array;
use ndarray::dim::Dim;
use ndarray::slice::Slice;
use ndarray::ArrayError;

/// Fill every element in row-major order with `f(position)`.
fn fill_with<A: Copy, F: Fn(usize) -> A>(a: &mut Array<A>, f: F) {
    let mut it = a.iter_mut();
    let mut i: usize = 0;
    while let Some(ix) = it.next_index() {
        let ok = a.set(&ix, f(i));
        assert!(ok);
        i += 1;
    }
}

fn collect(a: &Array<i64>) -> Vec<i64> {
    let mut v = Vec::new();
    let mut it = a.iter();
    while let Some(x) = it.next() {
        v.push(x);
    }
    v
}

#[test]
fn row_major_fill_matches_nested_loops() {
    // Filling by a flat counter in iteration order must equal filling by
    // nested loops, outermost to innermost: default strides are row-major.
    let mut a: Array<i64> = Array::zeros(Dim::new(vec![2, 3, 4]));
    fill_with(&mut a, |i| i as i64);
    let mut counter: i64 = 0;
    for i in 0..2usize {
        for j in 0..3usize {
            for k in 0..4usize {
                assert_eq!(a.at(&vec![i, j, k]).unwrap(), counter);
                counter += 1;
            }
        }
    }
    assert_eq!(collect(&a), (0..24).collect::<Vec<i64>>());
}

#[test]
fn clone_is_copy_on_write_independent() {
    let mut a: Array<i64> = Array::zeros(Dim::new(vec![2, 2]));
    let b = a.clone();
    a.set(&vec![0, 0], 1);
    assert_eq!(b.at(&vec![0, 0]).unwrap(), 0);
    assert_eq!(a.at(&vec![0, 0]).unwrap(), 1);
    // and the other way round
    let mut c = b.clone();
    c.set(&vec![1, 1], 7);
    assert_eq!(b.at(&vec![1, 1]).unwrap(), 0);
    assert_eq!(c.at(&vec![1, 1]).unwrap(), 7);
}

#[test]
fn slice_then_slice_values() {
    let mut a: Array<i64> = Array::zeros(Dim::new(vec![3, 4]));
    fill_with(&mut a, |i| i as i64);
    let v = a.slice(&vec![Slice(1, None, 1), Slice(0, None, 2)]).unwrap();
    assert_eq!(v.shape().as_slice(), &[2usize, 2]);
    assert_eq!(v.at(&vec![0, 0]).unwrap(), 4);
    assert_eq!(v.at(&vec![0, 1]).unwrap(), 6);
    assert_eq!(v.at(&vec![1, 0]).unwrap(), 8);
    assert_eq!(v.at(&vec![1, 1]).unwrap(), 10);
    assert_eq!(collect(&v), vec![4, 6, 8, 10]);
}

#[test]
fn negative_step_reverses_order() {
    let mut a: Array<i64> = Array::zeros(Dim::new(vec![2, 4, 2]));
    fill_with(&mut a, |i| i as i64);
    let v = a
        .slice(&vec![Slice::full(), Slice(0, None, -1), Slice(0, None, -1)])
        .unwrap();
    assert_eq!(
        collect(&v),
        vec![7, 6, 5, 4, 3, 2, 1, 0, 15, 14, 13, 12, 11, 10, 9, 8]
    );
}

#[test]
fn reshape_contiguous_shares_storage() {
    let mut a: Array<i64> = Array::zeros(Dim::new(vec![3, 4]));
    fill_with(&mut a, |i| i as i64);
    let r = a.reshape(Dim::new(vec![2, 6])).unwrap();
    assert!(a.shares_storage(&r));
    assert_eq!(collect(&r), (0..12).collect::<Vec<i64>>());
}

#[test]
fn reshape_non_contiguous_copies_and_is_independent() {
    let mut a: Array<i64> = Array::zeros(Dim::new(vec![4]));
    fill_with(&mut a, |i| i as i64);
    let v = a.slice(&vec![Slice(0, None, -1)]).unwrap();
    let r = v.reshape(Dim::new(vec![2, 2])).unwrap();
    assert!(!v.shares_storage(&r));
    assert_eq!(collect(&r), vec![3, 2, 1, 0]);
    // later mutations of the source do not reach the materialized copy
    a.set(&vec![0], 100);
    assert_eq!(r.at(&vec![1, 1]).unwrap(), 0);
}

#[test]
fn reshape_size_mismatch() {
    let a: Array<i64> = Array::zeros(Dim::new(vec![2, 3]));
    assert_eq!(
        a.reshape(Dim::new(vec![4, 2])).err().unwrap(),
        ArrayError::SizeMismatch
    );
}

#[test]
fn eq_requires_identical_shapes() {
    let a: Array<i64> = Array::zeros(Dim::new(vec![2, 2]));
    let b: Array<i64> = Array::zeros(Dim::new(vec![2, 3]));
    assert_eq!(a.eq(&b).err().unwrap(), ArrayError::ShapeMismatch);
    let c: Array<i64> = Array::zeros(Dim::new(vec![2, 2]));
    assert!(a.eq(&c).unwrap());
    let mut d = c.clone();
    d.set(&vec![1, 0], 5);
    assert!(!a.eq(&d).unwrap());
}

#[test]
fn binary_ops_require_identical_shapes() {
    let mut a: Array<i64> = Array::zeros(Dim::new(vec![2, 2]));
    let b: Array<i64> = Array::zeros(Dim::new(vec![4]));
    assert_eq!(a.iadd(&b).err().unwrap(), ArrayError::ShapeMismatch);
    assert_eq!(a.add(&b).err().unwrap(), ArrayError::ShapeMismatch);
}

#[test]
fn slice_rank_and_step_errors() {
    let a: Array<i64> = Array::zeros(Dim::new(vec![2, 2]));
    assert_eq!(
        a.slice(&vec![Slice::full()]).err().unwrap(),
        ArrayError::RankMismatch
    );
    assert_eq!(
        a.slice(&vec![Slice::full(), Slice(0, None, 0)]).err().unwrap(),
        ArrayError::InvalidStep
    );
}

#[test]
fn index_out_of_bounds() {
    let a: Array<i64> = Array::zeros(Dim::new(vec![2, 2]));
    assert_eq!(
        a.index(&vec![2, 0]).err().unwrap(),
        ArrayError::IndexOutOfBounds
    );
    assert_eq!(a.index(&vec![1, 1]).unwrap(), 0);
    assert!(a.at(&vec![0, 5]).is_none());
    assert!(a.at(&vec![0]).is_none());
}

#[test]
fn elementwise_arithmetic_values() {
    let a = Array::from_vec(Dim::new(vec![2, 2]), vec![1, -2, 3, 4]);
    let b = Array::from_vec(Dim::new(vec![2, 2]), vec![10, 20, -30, 5]);
    let sum = a.add(&b).unwrap();
    assert_eq!(collect(&sum), vec![11, 18, -27, 9]);
    let diff = a.sub(&b).unwrap();
    assert_eq!(collect(&diff), vec![-9, -22, 33, -1]);
    let prod = a.mul(&b).unwrap();
    assert_eq!(collect(&prod), vec![10, -40, -90, 20]);
    let neg = a.neg();
    assert_eq!(collect(&neg), vec![-1, 2, -3, -4]);
}

#[test]
fn division_truncates_toward_zero() {
    let a = Array::from_vec(Dim::new(vec![4]), vec![7, -7, 8, -9]);
    let b = Array::from_vec(Dim::new(vec![4]), vec![2, 2, -3, -2]);
    let q = a.div(&b).unwrap();
    assert_eq!(collect(&q), vec![3, -3, -2, 4]);
}

#[test]
fn bitwise_ops_values() {
    let a = Array::from_vec(Dim::new(vec![3]), vec![0b1100, 0b1010, 7]);
    let b = Array::from_vec(Dim::new(vec![3]), vec![0b1010, 0b0110, 1]);
    assert_eq!(collect(&a.bitand(&b).unwrap()), vec![0b1000, 0b0010, 1]);
    assert_eq!(collect(&a.bitor(&b).unwrap()), vec![0b1110, 0b1110, 7]);
    assert_eq!(collect(&a.bitxor(&b).unwrap()), vec![0b0110, 0b1100, 6]);
}

#[test]
fn in_place_ops_values() {
    let mut a = Array::from_vec(Dim::new(vec![2]), vec![6, 8]);
    let b = Array::from_vec(Dim::new(vec![2]), vec![2, 4]);
    a.isub(&b).unwrap();
    assert_eq!(collect(&a), vec![4, 4]);
    a.imul(&b).unwrap();
    assert_eq!(collect(&a), vec![8, 16]);
    a.idiv(&b).unwrap();
    assert_eq!(collect(&a), vec![4, 4]);
    a.ibitor(&b).unwrap();
    assert_eq!(collect(&a), vec![6, 4]);
    a.ibitand(&b).unwrap();
    assert_eq!(collect(&a), vec![2, 4]);
    a.ibitxor(&b).unwrap();
    assert_eq!(collect(&a), vec![0, 0]);
    a.ineg();
    assert_eq!(collect(&a), vec![0, 0]);
    let mut c = Array::from_vec(Dim::new(vec![2]), vec![1, -5]);
    c.ineg();
    assert_eq!(collect(&c), vec![-1, 5]);
}

#[test]
fn iter1d_rows_and_columns() {
    let mut a: Array<i64> = Array::zeros(Dim::new(vec![3, 3]));
    fill_with(&mut a, |i| i as i64);
    let mut row = a.iter1d(1, &vec![1, 0]);
    assert_eq!(row.next(), Some(3));
    assert_eq!(row.next(), Some(4));
    assert_eq!(row.next(), Some(5));
    assert_eq!(row.next(), None);
    let mut col = a.iter1d(0, &vec![0, 2]);
    assert_eq!(col.next(), Some(2));
    assert_eq!(col.next(), Some(5));
    assert_eq!(col.next(), Some(8));
    assert_eq!(col.next(), None);
}

#[test]
fn diag_walks_the_diagonal() {
    let mut a: Array<i64> = Array::zeros(Dim::new(vec![3, 3]));
    fill_with(&mut a, |i| i as i64);
    let mut d = a.diag();
    assert_eq!(d.next(), Some(0));
    assert_eq!(d.next(), Some(4));
    assert_eq!(d.next(), Some(8));
    assert_eq!(d.next(), None);
}

#[test]
fn slice_iter_without_materializing() {
    let mut a: Array<i64> = Array::zeros(Dim::new(vec![3, 4]));
    fill_with(&mut a, |i| i as i64);
    let mut it = a
        .slice_iter(&vec![Slice(1, None, 1), Slice(0, None, 2)])
        .unwrap();
    let mut v = Vec::new();
    while let Some(x) = it.next() {
        v.push(x);
    }
    assert_eq!(v, vec![4, 6, 8, 10]);
}

#[test]
fn negative_start_and_stop_resolve_from_the_end() {
    let mut a: Array<i64> = Array::zeros(Dim::new(vec![6]));
    fill_with(&mut a, |i| i as i64);
    let v = a.slice(&vec![Slice(-4, Some(-1), 1)]).unwrap();
    assert_eq!(collect(&v), vec![2, 3, 4]);
    // an empty span (stop before start) clamps to length zero
    let e = a.slice(&vec![Slice(4, Some(2), 1)]).unwrap();
    assert_eq!(e.shape().as_slice(), &[0usize]);
    assert_eq!(collect(&e), Vec::<i64>::new());
}

#[test]
fn scalar_and_empty_shapes() {
    // a rank-0 array holds exactly one element
    let mut s: Array<i64> = Array::zeros(Dim::new(vec![]));
    assert_eq!(s.size(), 1);
    assert_eq!(s.at(&vec![]).unwrap(), 0);
    s.set(&vec![], 9);
    assert_eq!(s.at(&vec![]).unwrap(), 9);
    // an axis of extent zero holds none
    let z: Array<i64> = Array::zeros(Dim::new(vec![0, 5]));
    assert_eq!(z.size(), 0);
    assert!(z.iter().next().is_none());
}

#[test]
fn make_unique_keeps_values() {
    let mut a: Array<i64> = Array::zeros(Dim::new(vec![2]));
    fill_with(&mut a, |i| i as i64);
    let b = a.clone();
    assert!(a.shares_storage(&b));
    a.make_unique();
    assert!(!a.shares_storage(&b));
    assert_eq!(collect(&a), vec![0, 1]);
    assert_eq!(collect(&b), vec![0, 1]);
}

#[test]
fn mat_mul_identity() {
    let mut a: Array<i64> = Array::zeros(Dim::new(vec![2, 2]));
    fill_with(&mut a, |i| (i + 1) as i64);
    let id = Array::from_vec(Dim::new(vec![2, 2]), vec![1, 0, 0, 1]);
    let p = a.mat_mul(&id);
    assert!(p.eq(&a).unwrap());
}

#[test]
fn apply_slice_rewrites_in_place() {
    let mut a: Array<i64> = Array::zeros(Dim::new(vec![3, 4]));
    fill_with(&mut a, |i| i as i64);
    a.apply_slice(&vec![Slice(1, None, 1), Slice(0, None, 2)])
        .unwrap();
    assert_eq!(a.shape().as_slice(), &[2usize, 2]);
    assert_eq!(collect(&a), vec![4, 6, 8, 10]);
}

#[test]
fn diag_of_rectangular_array() {
    let mut a: Array<i64> = Array::zeros(Dim::new(vec![2, 3]));
    fill_with(&mut a, |i| i as i64);
    let mut d = a.diag();
    assert_eq!(d.next(), Some(0));
    assert_eq!(d.next(), Some(4));
    assert_eq!(d.next(), None);
}

#[test]
fn iter_mut_cursor_walks_every_index_once() {
    let mut a: Array<i64> = Array::zeros(Dim::new(vec![2, 2]));
    let mut it = a.iter_mut();
    let mut seen = Vec::new();
    while let Some(ix) = it.next_index() {
        seen.push(ix);
    }
    assert_eq!(
        seen,
        vec![vec![0, 0], vec![0, 1], vec![1, 0], vec![1, 1]]
    );
}

#[test]
fn slice_iter_mut_writes_selected_elements() {
    let mut a: Array<i64> = Array::zeros(Dim::new(vec![3, 4]));
    fill_with(&mut a, |i| i as i64);
    let mut it = a
        .slice_iter_mut(&vec![Slice(1, None, 1), Slice(0, None, 2)])
        .unwrap();
    while let Some(ix) = it.next_index() {
        let v = a.at(&ix).unwrap();
        a.set(&ix, v + 100);
    }
    // the selected cells change; the array keeps its shape, the rest stays
    assert_eq!(a.shape().as_slice(), &[3usize, 4]);
    assert_eq!(
        collect(&a),
        vec![0, 1, 2, 3, 104, 5, 106, 7, 108, 9, 110, 11]
    );
}
