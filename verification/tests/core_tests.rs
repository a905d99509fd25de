use ndarray::array::Array;
use ndarray::dim::Dim;
use ndarray::slice::Slice;

/// Fill every element in row-major order with `f(position)`.
fn fill_with<A: Copy, F: Fn(usize) -> A>(a: &mut Array<A>, f: F) {
    let mut it = a.iter_mut();
    let mut i: usize = 0;
    while let Some(ix) = it.next_index() {
        let ok = a.set(&ix, f(i));
        assert!(ok);
        i += 1;
    }
}

#[test]
fn test_matmul_rcarray() {
    let mut a: Array<i64> = Array::zeros(Dim::new(vec![2, 3]));
    fill_with(&mut a, |i| i as i64);

    let mut b: Array<i64> = Array::zeros(Dim::new(vec![3, 4]));
    fill_with(&mut b, |i| i as i64);

    let c = a.mat_mul(&b);
    let result = Array::from_vec(Dim::new(vec![2, 4]), vec![20, 23, 26, 29, 56, 68, 80, 92]);
    assert_eq!(c.shape(), result.shape());
    let mut it1 = c.iter();
    let mut it2 = result.iter();
    loop {
        match (it1.next(), it2.next()) {
            (Some(x), Some(y)) => assert!(x == y),
            (None, None) => break,
            _ => panic!(),
        }
    }
    assert!(c.eq(&result).unwrap());
}

#[test]
fn test_slice() {
    let mut a: Array<i64> = Array::zeros(Dim::new(vec![3, 4]));
    fill_with(&mut a, |i| i as i64);

    let vi = a.slice(&vec![Slice(1, None, 1), Slice(0, None, 2)]).unwrap();
    assert_eq!(vi.shape().as_slice(), &[2usize, 2]);
    let vi = a.slice(&vec![Slice::full(), Slice::full()]).unwrap();
    assert_eq!(vi.shape(), a.shape());
    let mut it1 = vi.iter();
    let mut it2 = a.iter();
    loop {
        match (it1.next(), it2.next()) {
            (Some(x), Some(y)) => assert!(x == y),
            (None, None) => break,
            _ => panic!(),
        }
    }
}

#[test]
fn test_index() {
    let mut a: Array<i64> = Array::zeros(Dim::new(vec![2, 3]));
    fill_with(&mut a, |i| i as i64);

    let mut it = a.iter();
    for i in 0..2usize {
        for j in 0..3usize {
            let x = it.next().unwrap();
            assert_eq!(x, *a.at(&vec![i, j]).as_ref().unwrap());
        }
    }

    let vi = a.slice(&vec![Slice(1, None, 1), Slice(0, None, 2)]).unwrap();
    let mut it = vi.iter();
    for i in 0..1usize {
        for j in 0..2usize {
            let x = it.next().unwrap();
            assert_eq!(x, vi.at(&vec![i, j]).unwrap());
        }
    }
    assert!(it.next().is_none());
}

#[test]
fn test_add() {
    let mut a: Array<i64> = Array::zeros(Dim::new(vec![2, 2]));
    fill_with(&mut a, |i| i as i64);

    let b = a.clone();
    a.iadd(&b).unwrap();
    assert_eq!(a.at(&vec![0, 0]).unwrap(), 0);
    assert_eq!(a.at(&vec![0, 1]).unwrap(), 2);
    assert_eq!(a.at(&vec![1, 0]).unwrap(), 4);
    assert_eq!(a.at(&vec![1, 1]).unwrap(), 6);
}

#[test]
fn test_multidim() {
    let base: Array<u8> = Array::new(Dim::new(vec![2 * 3 * 4 * 5 * 6]), 0u8);
    let mut mat = base.reshape(Dim::new(vec![2, 3, 4, 5, 6])).unwrap();
    mat.set(&vec![0, 0, 0, 0, 0], 22u8);
    fill_with(&mut mat, |i| i as u8);
    assert_eq!(mat.shape().as_slice(), &[2usize, 3, 4, 5, 6]);
}

#[test]
fn test_negative_stride_rcarray() {
    let mut mat: Array<f32> = Array::new(Dim::new(vec![2, 4, 2]), 0.0f32);
    mat.set(&vec![0, 0, 0], 1.0f32);
    fill_with(&mut mat, |i| i as f32);

    {
        let vi = mat
            .slice(&vec![Slice::full(), Slice(0, None, -1), Slice(0, None, -1)])
            .unwrap();
        assert_eq!(vi.shape().as_slice(), &[2usize, 4, 2]);
        // Test against sequential iterator
        let seq = [
            7f32, 6., 5., 4., 3., 2., 1., 0., 15., 14., 13., 12., 11., 10., 9., 8.,
        ];
        let mut it = vi.clone().iter();
        for b in seq.iter() {
            let a = it.next().unwrap();
            assert_eq!(a, *b);
        }
    }
    {
        let vi = mat.slice(&vec![Slice::full(), Slice(0, None, -5), Slice::full()]).unwrap();
        let seq = [6_f32, 7., 14., 15.];
        let mut it = vi.iter();
        for b in seq.iter() {
            let a = it.next().unwrap();
            assert_eq!(a, *b);
        }
    }
}

#[test]
fn test_cow() {
    let mut mat: Array<i64> = Array::zeros(Dim::new(vec![2, 2]));
    mat.set(&vec![0, 0], 1);
    let n = mat.clone();
    mat.set(&vec![0, 1], 2);
    mat.set(&vec![1, 0], 3);
    mat.set(&vec![1, 1], 4);
    assert_eq!(mat.at(&vec![0, 0]).unwrap(), 1);
    assert_eq!(mat.at(&vec![0, 1]).unwrap(), 2);
    assert_eq!(n.at(&vec![0, 0]).unwrap(), 1);
    assert_eq!(n.at(&vec![0, 1]).unwrap(), 0);
    let mut rev = mat
        .reshape(Dim::new(vec![4]))
        .unwrap()
        .slice(&vec![Slice(0, None, -1)])
        .unwrap();
    assert_eq!(rev.at(&vec![0]).unwrap(), 4);
    assert_eq!(rev.at(&vec![1]).unwrap(), 3);
    assert_eq!(rev.at(&vec![2]).unwrap(), 2);
    assert_eq!(rev.at(&vec![3]).unwrap(), 1);
    let before = rev.clone();
    // mutation
    rev.set(&vec![0], 5);
    assert_eq!(rev.at(&vec![0]).unwrap(), 5);
    assert_eq!(rev.at(&vec![1]).unwrap(), 3);
    assert_eq!(rev.at(&vec![2]).unwrap(), 2);
    assert_eq!(rev.at(&vec![3]).unwrap(), 1);
    assert_eq!(before.at(&vec![0]).unwrap(), 4);
    assert_eq!(before.at(&vec![1]).unwrap(), 3);
    assert_eq!(before.at(&vec![2]).unwrap(), 2);
    assert_eq!(before.at(&vec![3]).unwrap(), 1);
}
