use numeric::axis::{AxisIndex, TensorError};
use numeric::shape::{checked_product, shape_product};
use numeric::Tensor;

fn counted(shape: &[isize]) -> Tensor<i64> {
    let n = shape.iter().fold(1isize, |a, &d| a * d) as usize;
    Tensor::<i64>::range(n).reshaped(shape).unwrap()
}

#[test]
fn strides_follow_the_shape() {
    let t = Tensor::<i64>::zeros(&[2, 3, 4]);
    assert_eq!(t.strides(), vec![12, 4, 1]);
    let t = Tensor::<i64>::zeros(&[5]);
    assert_eq!(t.strides(), vec![1]);
    let t = Tensor::<i64>::zeros(&[3, 0, 2]);
    assert_eq!(t.strides(), vec![0, 2, 1]);
}

#[test]
fn ravel_of_unravel_is_identity() {
    let t = Tensor::<i64>::zeros(&[2, 3, 4]);
    for k in 0..t.size() {
        let ii = t.unravel_index(k);
        assert_eq!(t.ravel_index(&ii), k);
    }
    assert_eq!(t.unravel_index(17), vec![1, 1, 1]);
    assert_eq!(t.unravel_index(23), vec![1, 2, 3]);
    assert_eq!(t.ravel_index(&[1, 2, 0]), 20);
}

#[test]
fn reshape_round_trip_keeps_data() {
    let t = counted(&[2, 3, 4]);
    let before = t.data().clone();
    let r = t.reshaped(&[4, -1]).unwrap();
    assert_eq!(r.shape(), &vec![4, 6]);
    let back = r.reshaped(&[2, 3, 4]).unwrap();
    assert_eq!(back.shape(), &vec![2, 3, 4]);
    assert_eq!(back.data(), &before);
}

#[test]
fn reshape_errors() {
    assert_eq!(counted(&[24]).reshaped(&[-1, -1]).err(), Some(TensorError::ShapeMismatch));
    assert_eq!(counted(&[24]).reshaped(&[5, 5]).err(), Some(TensorError::ShapeMismatch));
    assert_eq!(counted(&[24]).reshaped(&[-2, -12]).err(), Some(TensorError::ShapeMismatch));
    assert_eq!(counted(&[24]).reshaped(&[5, -1]).err(), Some(TensorError::ShapeMismatch));
    assert_eq!(counted(&[24]).reshaped(&[0, -1]).err(), Some(TensorError::ShapeMismatch));
    assert_eq!(counted(&[24]).reshaped(&[2, -1, 3]).unwrap().shape(), &vec![2, 4, 3]);
    let e = Tensor::<i64>::empty().reshaped(&[3, 0, 2]).unwrap();
    assert_eq!(e.shape(), &vec![3, 0, 2]);
    assert_eq!(
        Tensor::<i64>::empty().reshaped(&[3, 0, -1]).err(),
        Some(TensorError::ShapeMismatch)
    );
}

#[test]
fn slice_everything_is_identity() {
    let t = counted(&[2, 3, 4]);
    let s = t.slice(&[AxisIndex::Full, AxisIndex::Full, AxisIndex::Full]).unwrap();
    assert_eq!(s.shape(), t.shape());
    assert_eq!(s.data(), t.data());
    let s = t.slice(&[]).unwrap();
    assert_eq!(s.shape(), t.shape());
    assert_eq!(s.data(), t.data());
}

#[test]
fn slice_last_element() {
    for n in 1..6 {
        let t = Tensor::<i64>::range(n);
        let s = t.slice(&[AxisIndex::Index(-1)]).unwrap();
        assert_eq!(s.size(), 1);
        assert_eq!(s.data(), &vec![(n - 1) as i64]);
        assert_eq!(s.ndim(), 0);
    }
}

#[test]
fn transpose_twice_is_identity() {
    let t = counted(&[2, 3]);
    let once = t.transpose().unwrap();
    assert_eq!(once.shape(), &vec![3, 2]);
    assert_eq!(once.data(), &vec![0, 3, 1, 4, 2, 5]);
    let twice = once.transpose().unwrap();
    assert_eq!(twice.shape(), t.shape());
    assert_eq!(twice.data(), t.data());
}

#[test]
fn slice_shapes_on_three_axes() {
    let t = Tensor::<i64>::ones(&[2, 3, 4]);
    let a = t.slice(&[AxisIndex::Ellipsis, AxisIndex::Slice(1, 3)]).unwrap();
    assert_eq!(a.shape(), &vec![2, 3, 2]);
    let b = t.slice(&[AxisIndex::Index(-1)]).unwrap();
    assert_eq!(b.shape(), &vec![3, 4]);
    let c = t
        .slice(&[AxisIndex::Full, AxisIndex::SliceFrom(1), AxisIndex::Index(1)])
        .unwrap();
    assert_eq!(c.shape(), &vec![2, 2]);
}

#[test]
fn slice_picks_the_right_elements() {
    let t = counted(&[2, 3, 4]);
    let s = t
        .slice(&[AxisIndex::Full, AxisIndex::Slice(1, 3), AxisIndex::Index(-1)])
        .unwrap();
    assert_eq!(s.shape(), &vec![2, 2]);
    assert_eq!(s.data(), &vec![7, 11, 19, 23]);
    let s = t.slice(&[AxisIndex::SliceTo(-1), AxisIndex::Index(2)]).unwrap();
    assert_eq!(s.shape(), &vec![1, 4]);
    assert_eq!(s.data(), &vec![8, 9, 10, 11]);
    let s = t.slice(&[AxisIndex::Ellipsis, AxisIndex::Slice(-3, -1)]).unwrap();
    assert_eq!(s.shape(), &vec![2, 3, 2]);
    assert_eq!(s.data(), &vec![1, 2, 5, 6, 9, 10, 13, 14, 17, 18, 21, 22]);
}

#[test]
fn slice_new_axes_around_ellipsis() {
    let t = counted(&[2, 3]);
    let s = t
        .slice(&[AxisIndex::NewAxis, AxisIndex::Ellipsis, AxisIndex::NewAxis])
        .unwrap();
    assert_eq!(s.shape(), &vec![1, 2, 3, 1]);
    assert_eq!(s.data(), t.data());
    let s = t.slice(&[AxisIndex::Index(0), AxisIndex::NewAxis]).unwrap();
    assert_eq!(s.shape(), &vec![1, 3]);
    assert_eq!(s.data(), &vec![0, 1, 2]);
    let s = t.slice(&[AxisIndex::Full, AxisIndex::NewAxis]).unwrap();
    assert_eq!(s.shape(), &vec![2, 1, 3]);
}

#[test]
fn slice_refuses_bad_requests() {
    let t = counted(&[2, 3, 4]);
    assert_eq!(
        t.slice(&[AxisIndex::Ellipsis, AxisIndex::Full, AxisIndex::Ellipsis]).err(),
        Some(TensorError::MultipleEllipsis)
    );
    assert_eq!(
        t.slice(&[AxisIndex::Full, AxisIndex::Full, AxisIndex::Full, AxisIndex::Full]).err(),
        Some(TensorError::TooManyIndices)
    );
    assert_eq!(
        t.slice(&[
            AxisIndex::Ellipsis,
            AxisIndex::Full,
            AxisIndex::Full,
            AxisIndex::Full,
            AxisIndex::Full
        ])
        .err(),
        Some(TensorError::TooManyIndices)
    );
    assert_eq!(t.slice(&[AxisIndex::Index(2)]).err(), Some(TensorError::IndexOutOfRange));
    assert_eq!(t.slice(&[AxisIndex::Index(-3)]).err(), Some(TensorError::IndexOutOfRange));
    assert_eq!(
        t.slice(&[AxisIndex::Full, AxisIndex::Slice(2, 1)]).err(),
        Some(TensorError::IndexOutOfRange)
    );
    assert_eq!(
        t.slice(&[AxisIndex::Full, AxisIndex::SliceTo(4)]).err(),
        Some(TensorError::IndexOutOfRange)
    );
    assert_eq!(
        t.slice(&[AxisIndex::Full, AxisIndex::SliceFrom(-4)]).err(),
        Some(TensorError::IndexOutOfRange)
    );
}

#[test]
fn eye_of_three() {
    let t = Tensor::<i64>::eye(3);
    assert_eq!(t.shape(), &vec![3, 3]);
    assert_eq!(t.data(), &vec![1, 0, 0, 0, 1, 0, 0, 0, 1]);
    assert_eq!(Tensor::<i32>::eye(0).size(), 0);
}

#[test]
fn filled_two_by_three() {
    let t = Tensor::filled(&[2, 3], 7i64);
    assert_eq!(t.size(), 6);
    assert!(t.data().iter().all(|&x| x == 7));
    assert_eq!(t.shape(), &vec![2, 3]);
}

#[test]
fn constructors() {
    let e = Tensor::<i64>::empty();
    assert_eq!(e.shape(), &vec![0]);
    assert_eq!(e.size(), 0);
    let n = Tensor::new(vec![4u32, 5, 6]);
    assert_eq!(n.shape(), &vec![3]);
    assert_eq!(n.data(), &vec![4, 5, 6]);
    assert_eq!(Tensor::<u64>::range(4).data(), &vec![0, 1, 2, 3]);
    assert_eq!(Tensor::<i32>::zeros(&[2, 2]).data(), &vec![0, 0, 0, 0]);
    assert_eq!(Tensor::<usize>::ones(&[3]).data(), &vec![1, 1, 1]);
    assert_eq!(Tensor::<isize>::range(0).size(), 0);
}

#[test]
fn flatten_keeps_order() {
    let t = counted(&[2, 3]);
    assert_eq!(t.ndim(), 2);
    let f = t.flatten();
    assert_eq!(f.shape(), &vec![6]);
    assert_eq!(f.data(), &vec![0, 1, 2, 3, 4, 5]);
}

#[test]
fn swapaxes_moves_elements() {
    let t = counted(&[2, 3, 4]);
    let s = t.swapaxes(0, 2).unwrap();
    assert_eq!(s.shape(), &vec![4, 3, 2]);
    for i in 0..2 {
        for j in 0..3 {
            for k in 0..4 {
                let src = t.data()[t.ravel_index(&[i, j, k])];
                let dst = s.data()[s.ravel_index(&[k, j, i])];
                assert_eq!(src, dst);
            }
        }
    }
    assert_eq!(t.swapaxes(1, 1).err(), Some(TensorError::InvalidAxis));
    assert_eq!(t.swapaxes(0, 3).err(), Some(TensorError::InvalidAxis));
    assert_eq!(t.transpose().err(), Some(TensorError::InvalidAxis));
}

#[test]
fn products_of_shapes() {
    assert_eq!(shape_product(&[2, 3, 4]), 24);
    assert_eq!(shape_product(&[]), 1);
    assert_eq!(checked_product(&[usize::MAX, 2]), None);
    assert_eq!(checked_product(&[usize::MAX, 2, 0]), Some(0));
    assert_eq!(checked_product(&[5, 7]), Some(35));
}
