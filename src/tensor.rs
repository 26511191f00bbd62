//! The tensor type: a flat row-major buffer and a shape, with construction,
//! reshaping, axis swapping and slicing.
use vstd::prelude::*;
use crate::axis::{
    axes_of, axis_range, count_consuming, count_ellipsis, expand_request, expanded, extents, fulls,
    gaps_of, lemma_axes_len, lemma_sliced_product, ones, ranges_ok, replace_ellipsis, resolve,
    sliced_shape, sliced_shape_upto, starts, AxisIndex, TensorError,
};
use crate::element::{count, counts_fit, Element};
use crate::shape::{
    addressable, checked_product, copy_shape, in_bounds, ints, lemma_in_bounds_tail, lemma_positive_addressable, lemma_product_le, lemma_ravel_unravel,
    lemma_ravel_update, lemma_tail_tail, lemma_unravel_ravel, lemma_product_single, lemma_product_swap, swap_entries, lemma_product_zero,
    lemma_ravel_in_bounds, lemma_unravel_in_bounds, product, ravel, ravel_with, shape_product, stride,
    strides_of, tail_from, unravel, unravel_with,
};

verus! {

/// The mathematical value of a tensor: its shape and its elements in
/// row-major order.
#[verifier::ext_equal]
pub struct TensorView<T> {
    pub shape: Seq<usize>,
    pub data: Seq<T>,
}

impl<T> TensorView<T> {
    /// The buffer holds exactly one element per position of the shape.
    pub open spec fn valid(self) -> bool {
        self.data.len() == product(self.shape)
    }
}

/// An N-dimensional matrix whose elements are stored in row-major order (the
/// last axis varies fastest).
#[derive(Clone)]
pub struct Tensor<T> {
    data: Vec<T>,
    shape: Vec<usize>,
}

impl<T> View for Tensor<T> {
    type V = TensorView<T>;

    closed spec fn view(&self) -> TensorView<T> {
        TensorView { shape: self.shape@, data: self.data@ }
    }
}

/// The value of a fallible tensor operation's outcome.
pub open spec fn view_result<T>(r: Result<Tensor<T>, TensorError>) -> Result<
    TensorView<T>,
    TensorError,
> {
    match r {
        Ok(t) => Ok(t@),
        Err(e) => Err(e),
    }
}

/// `req` holds a negative size other than the wildcard `-1`.
pub open spec fn has_bad_size(req: Seq<isize>) -> bool {
    exists|i: int| 0 <= i < req.len() && req[i] < -1
}

/// `req` holds the wildcard `-1` at two places.
pub open spec fn has_two_wildcards(req: Seq<isize>) -> bool {
    exists|i: int, j: int| 0 <= i < j < req.len() && req[i] == -1 && req[j] == -1
}

/// `req` holds the wildcard `-1`.
pub open spec fn has_wildcard(req: Seq<isize>) -> bool {
    exists|i: int| 0 <= i < req.len() && req[i] == -1
}

/// `req` with its wildcard replaced by `d`.
pub open spec fn fill_wildcard(req: Seq<isize>, d: usize) -> Seq<usize> {
    req.map_values(
        |x: isize|
            if x == -1 {
                d
            } else {
                x as usize
            },
    )
}

/// The shape that a reshape request names for `size` elements: the wildcard,
/// if any, becomes `size` divided by the product of the other sizes, and the
/// result must hold exactly `size` elements.
pub open spec fn reshape_target(size: nat, req: Seq<isize>) -> Result<Seq<usize>, TensorError> {
    if has_bad_size(req) || has_two_wildcards(req) {
        Err(TensorError::ShapeMismatch)
    } else {
        let p = product(fill_wildcard(req, 1));
        if has_wildcard(req) && p == 0 {
            Err(TensorError::ShapeMismatch)
        } else {
            let d = if has_wildcard(req) {
                (size / p) as usize
            } else {
                0
            };
            let s = fill_wildcard(req, d);
            if product(s) == size {
                Ok(s)
            } else {
                Err(TensorError::ShapeMismatch)
            }
        }
    }
}

/// The tensor `v` given the shape that `req` names, its elements unchanged.
pub open spec fn reshape_view<T>(v: TensorView<T>, req: Seq<isize>) -> Result<
    TensorView<T>,
    TensorError,
> {
    match reshape_target(v.data.len(), req) {
        Ok(s) => Ok(TensorView { shape: s, data: v.data }),
        Err(e) => Err(e),
    }
}

/// The tensor `v` with axes `a1` and `a2` exchanged: the element at a
/// multi-index of the result is the source element at that multi-index with
/// the two entries exchanged.
pub open spec fn swapaxes_view<T>(v: TensorView<T>, a1: nat, a2: nat) -> Result<
    TensorView<T>,
    TensorError,
> {
    if a1 >= v.shape.len() || a2 >= v.shape.len() || a1 == a2 {
        Err(TensorError::InvalidAxis)
    } else {
        let s2 = swap_entries(v.shape, a1 as int, a2 as int);
        Ok(
            TensorView {
                shape: s2,
                data: Seq::new(
                    v.data.len(),
                    |j: int| v.data[ravel(swap_entries(unravel(j, s2), a1 as int, a2 as int), v.shape)],
                ),
            },
        )
    }
}

/// The transpose of a two-dimensional tensor.
pub open spec fn transpose_view<T>(v: TensorView<T>) -> Result<TensorView<T>, TensorError> {
    if v.shape.len() != 2 {
        Err(TensorError::InvalidAxis)
    } else {
        swapaxes_view(v, 0, 1)
    }
}

/// Each entry of `start` added to the matching entry of `m`.
pub open spec fn offset(start: Seq<int>, m: Seq<int>) -> Seq<int> {
    Seq::new(m.len(), |a: int| start[a] + m[a])
}

/// The slice of `v` that the request `x` selects: the elements whose index on
/// each axis lies in that axis' range, in row-major order, under the shape
/// with dropped and inserted axes applied.
pub open spec fn slice_view<T>(v: TensorView<T>, x: Seq<AxisIndex>) -> Result<
    TensorView<T>,
    TensorError,
> {
    match expand_request(v.shape.len(), x) {
        Err(e) => Err(e),
        Ok((axes, gaps)) => {
            if !ranges_ok(v.shape, axes) {
                Err(TensorError::IndexOutOfRange)
            } else {
                let st = starts(v.shape, axes);
                let ext = extents(v.shape, axes);
                Ok(
                    TensorView {
                        shape: sliced_shape(v.shape, axes, gaps),
                        data: Seq::new(
                            product(ext),
                            |p: int| v.data[ravel(offset(st, unravel(p, ext)), v.shape)],
                        ),
                    },
                )
            }
        },
    }
}

impl<T: Copy> Tensor<T> {
    /// The tensor keeps one element per position of its shape.
    pub open spec fn wf(&self) -> bool {
        self@.valid()
    }

    /// Creates a new tensor with no elements, of shape `[0]`.
    pub fn empty() -> (r: Tensor<T>)
        ensures
            r.wf(),
            r@.shape == seq![0usize],
            r@.data == Seq::<T>::empty(),
    {
        let r = Tensor { data: Vec::new(), shape: vec![0] };
        assert(product(r@.shape) == 0) by {
            lemma_product_zero(r@.shape, 0);
        }
        r
    }

    /// Creates a one-dimensional tensor that takes ownership of `data`.
    pub fn new(data: Vec<T>) -> (r: Tensor<T>)
        ensures
            r.wf(),
            r@.shape == seq![data@.len() as usize],
            r@.data == data@,
    {
        let len = data.len();
        let r = Tensor { data: data, shape: vec![len] };
        proof {
            lemma_product_single(len);
            assert(r@.shape =~= seq![len]);
        }
        r
    }

    /// Creates a tensor of the given shape with every element equal to `v`.
    pub fn filled(shape: &[usize], v: T) -> (r: Tensor<T>)
        requires
            product(shape@) <= usize::MAX,
        ensures
            r.wf(),
            r@.shape == shape@,
            r@.data == Seq::new(product(shape@), |i: int| v),
    {
        let size = shape_product(shape);
        let sh = copy_shape(shape);
        let mut data: Vec<T> = Vec::new();
        let mut i: usize = 0;
        while i < size
            invariant
                i <= size,
                data@ == Seq::new(i as nat, |k: int| v),
            decreases size - i,
        {
            data.push(v);
            i = i + 1;
            assert(data@ =~= Seq::new(i as nat, |k: int| v));
        }
        Tensor { data: data, shape: sh }
    }

    /// Returns the shape of the tensor.
    pub fn shape(&self) -> (r: &Vec<usize>)
        ensures
            r@ == self@.shape,
    {
        &self.shape
    }

    /// Returns a reference to the underlying row-major data.
    pub fn data(&self) -> (r: &Vec<T>)
        ensures
            r@ == self@.data,
    {
        &self.data
    }

    /// Flattens the tensor to one dimension, keeping the element order.
    pub fn flatten(self) -> (r: Tensor<T>)
        requires
            self.wf(),
        ensures
            r.wf(),
            r@.shape == seq![self@.data.len() as usize],
            r@.data == self@.data,
    {
        let s = self.size();
        let r = Tensor { data: self.data, shape: vec![s] };
        proof {
            lemma_product_single(s);
            assert(r@.shape =~= seq![s]);
        }
        r
    }

    /// Returns the row-major strides of the tensor, one per axis.
    pub fn strides(&self) -> (r: Vec<usize>)
        requires
            addressable(self@.shape),
        ensures
            r@.len() == self@.shape.len(),
            forall|i: int| 0 <= i < self@.shape.len() ==> r@[i] as nat == #[trigger] stride(self@.shape, i),
    {
        strides_of(self.shape.as_slice())
    }

    /// Returns the number of elements in the tensor.
    pub fn size(&self) -> (r: usize)
        requires
            self.wf(),
        ensures
            r == product(self@.shape),
            r == self@.data.len(),
    {
        self.data.len()
    }

    /// Returns the number of axes, the length of the shape.
    pub fn ndim(&self) -> (r: usize)
        ensures
            r == self@.shape.len(),
    {
        self.shape.len()
    }

    /// Takes a slice (a subset) of the tensor and returns it as a new tensor.
    /// Each entry of `slices_raw` says what to take of one axis, or inserts a
    /// new axis of length one, or (`Ellipsis`) takes all axes no other entry
    /// names; axes after the last entry are taken whole.
    pub fn slice(&self, slices_raw: &[AxisIndex]) -> (r: Result<Tensor<T>, TensorError>)
        requires
            self.wf(),
        ensures
            view_result(r) == slice_view(self@, slices_raw@),
            r matches Ok(t) ==> t.wf(),
    {
        let (axes, gaps) = self.expand_slices(slices_raw)?;
        let ghost sh = self@.shape;
        let ghost ax = axes@;
        let ghost gp = expand_request(sh.len(), slices_raw@)->Ok_0.1;
        let n = axes.len();
        let mut first: Vec<usize> = Vec::new();
        let mut ext: Vec<usize> = Vec::new();
        let mut out: Vec<usize> = Vec::new();
        let mut j: usize = 0;
        while j < gaps[0]
            invariant
                gaps@.len() == n + 1,
                out@ == ones(j as nat),
                j <= gaps@[0],
            decreases gaps@[0] - j,
        {
            out.push(1);
            j = j + 1;
            assert(out@ =~= ones(j as nat));
        }
        assert(out@ == sliced_shape_upto(sh, ax, gp, 0));
        let mut a: usize = 0;
        while a < n
            invariant
                a <= n == sh.len() == ax.len(),
                sh == self@.shape,
                ax == axes@,
                expand_request(sh.len(), slices_raw@) is Ok,
                ax == expand_request(sh.len(), slices_raw@)->Ok_0.0,
                gp == expand_request(sh.len(), slices_raw@)->Ok_0.1,
                gaps@.len() == n + 1,
                gp.len() == n + 1,
                forall|k: int| 0 <= k < gaps@.len() ==> gaps@[k] as nat == #[trigger] gp[k],
                first@.len() == a,
                ext@.len() == a,
                forall|k: int| 0 <= k < a ==> (#[trigger] axis_range(sh[k], ax[k])) is Some,
                forall|k: int|
                    0 <= k < a ==> first@[k] as int == (#[trigger] axis_range(sh[k], ax[k])).unwrap().0,
                forall|k: int|
                    0 <= k < a ==> ext@[k] as int == (#[trigger] axis_range(sh[k], ax[k])).unwrap().1
                        - axis_range(sh[k], ax[k]).unwrap().0,
                out@ == sliced_shape_upto(sh, ax, gp, a as nat),
            decreases n - a,
        {
            let dim = self.shape[a];
            let (st, en, keep) = match axes[a] {
                AxisIndex::Index(i) => {
                    match self.resolve_axis(a, i) {
                        Some(v) => {
                            if v < dim {
                                (v, v + 1, false)
                            } else {
                                assert(axis_range(sh[a as int], ax[a as int]) is None);
                                assert(!ranges_ok(sh, ax));
                                return Err(TensorError::IndexOutOfRange);
                            }
                        },
                        None => {
                            assert(axis_range(sh[a as int], ax[a as int]) is None);
                            assert(!ranges_ok(sh, ax));
                            return Err(TensorError::IndexOutOfRange);
                        },
                    }
                },
                AxisIndex::Slice(i, k) => {
                    match (self.resolve_axis(a, i), self.resolve_axis(a, k)) {
                        (Some(u), Some(v)) => {
                            if u <= v {
                                (u, v, true)
                            } else {
                                assert(axis_range(sh[a as int], ax[a as int]) is None);
                                assert(!ranges_ok(sh, ax));
                                return Err(TensorError::IndexOutOfRange);
                            }
                        },
                        _ => {
                            assert(axis_range(sh[a as int], ax[a as int]) is None);
                            return Err(TensorError::IndexOutOfRange);
                        },
                    }
                },
                AxisIndex::SliceFrom(i) => {
                    match self.resolve_axis(a, i) {
                        Some(u) => (u, dim, true),
                        None => {
                            assert(axis_range(sh[a as int], ax[a as int]) is None);
                            assert(!ranges_ok(sh, ax));
                            return Err(TensorError::IndexOutOfRange);
                        },
                    }
                },
                AxisIndex::SliceTo(k) => {
                    match self.resolve_axis(a, k) {
                        Some(v) => (0, v, true),
                        None => {
                            assert(axis_range(sh[a as int], ax[a as int]) is None);
                            assert(!ranges_ok(sh, ax));
                            return Err(TensorError::IndexOutOfRange);
                        },
                    }
                },
                _ => (0, dim, true),
            };
            assert(axis_range(sh[a as int], ax[a as int]) == Some((st as int, en as int, keep)));
            first.push(st);
            ext.push(en - st);
            if keep {
                out.push(en - st);
            }
            let ghost base = out@;
            let mut j: usize = 0;
            while j < gaps[a + 1]
                invariant
                    gaps@.len() == n + 1,
                    a < n,
                    out@ == base + ones(j as nat),
                    j <= gaps@[a + 1],
                decreases gaps@[a + 1] - j,
            {
                out.push(1);
                j = j + 1;
                assert(out@ =~= base + ones(j as nat));
            }
            proof {
                let kept = if keep {
                    seq![extents(sh, ax)[a as int]]
                } else {
                    seq![]
                };
                assert(extents(sh, ax)[a as int] == en - st);
                assert(base =~= sliced_shape_upto(sh, ax, gp, a as nat) + kept);
                assert(gp[a + 1] == gaps@[a + 1] as nat);
            }
            a = a + 1;
        }
        assert(ranges_ok(sh, ax));
        assert(ext@ =~= extents(sh, ax));
        assert(out@ == sliced_shape(sh, ax, gp));
        proof {
            lemma_sliced_product(sh, ax, gp, n as nat);
            assert(extents(sh, ax).take(n as int) =~= extents(sh, ax));
            assert forall|k: int| 0 <= k < n implies ext@[k] <= sh[k] by {
                assert(axis_range(sh[k], ax[k]) is Some);
            }
            lemma_product_le(ext@, sh);
        }
        let _size = self.size();
        let total = shape_product(ext.as_slice());
        let ghost st_spec = starts(sh, ax);
        let ghost want = Seq::new(
            total as nat,
            |p: int| self@.data[ravel(offset(st_spec, unravel(p, ext@)), sh)],
        );
        let mut data: Vec<T> = Vec::new();
        if total > 0 {
            proof {
                lemma_positive_addressable(ext@);
                lemma_positive_addressable(sh);
                lemma_unravel_in_bounds(0, ext@);
                lemma_ravel_unravel(0, ext@);
            }
            let src_strides = strides_of(self.shape.as_slice());
            let ext_strides = strides_of(ext.as_slice());
            // The cursor walks the selected multi-indices in row-major order;
            // `idx` is the flat source position of the element under it.
            let mut m = unravel_with(0, ext.as_slice(), ext_strides.as_slice());
            let mut q: Vec<usize> = Vec::new();
            let mut b: usize = 0;
            while b < n
                invariant
                    b <= n == sh.len() == ext@.len() == first@.len() == m@.len(),
                    in_bounds(ints(m@), ext@),
                    forall|k: int| 0 <= k < n ==> first@[k] + ext@[k] <= #[trigger] sh[k],
                    q@.len() == b,
                    forall|k: int| 0 <= k < b ==> q@[k] as int == first@[k] + m@[k],
                decreases n - b,
            {
                assert(ints(m@)[b as int] == m@[b as int]);
                assert(first@[b as int] + ext@[b as int] <= sh[b as int]);
                let v = first[b] + m[b];
                q.push(v);
                b = b + 1;
            }
            proof {
                assert(ints(q@) =~= offset(st_spec, ints(m@)));
                lemma_offset_in_bounds(st_spec, ints(m@), ext@, sh);
            }
            let mut idx = ravel_with(q.as_slice(), self.shape.as_slice(), src_strides.as_slice());
            let mut p: usize = 0;
            while p < total
                invariant
                    p <= total == product(ext@) <= product(sh) == self@.data.len(),
                    product(sh) <= usize::MAX,
                    sh == self@.shape,
                    n == sh.len() == ext@.len() == first@.len() == m@.len(),
                    src_strides@.len() == n,
                    forall|i: int| 0 <= i < n ==> src_strides@[i] as nat == #[trigger] stride(sh, i),
                    forall|k: int| 0 <= k < n ==> first@[k] as int == #[trigger] st_spec[k],
                    forall|k: int| 0 <= k < n ==> first@[k] + ext@[k] <= #[trigger] sh[k],
                    st_spec.len() == n,
                    p < total ==> in_bounds(ints(m@), ext@),
                    p < total ==> ravel(ints(m@), ext@) == p,
                    p < total ==> idx == ravel(offset(st_spec, ints(m@)), sh),
                    want == Seq::new(
                        total as nat,
                        |k: int| self@.data[ravel(offset(st_spec, unravel(k, ext@)), sh)],
                    ),
                    data@ == want.take(p as int),
                decreases total - p,
            {
                proof {
                    lemma_unravel_ravel(ints(m@), ext@);
                    lemma_offset_in_bounds(st_spec, ints(m@), ext@, sh);
                    lemma_ravel_in_bounds(offset(st_spec, ints(m@)), sh);
                }
                assert(want[p as int] == self@.data[idx as int]);
                data.push(self.data[idx]);
                if p + 1 < total {
                    proof {
                        if n == 0 {
                            assert(product(ext@) == 1);
                        }
                        assert(stride(ext@, n - 1) == 1) by {
                            assert(tail_from(ext@, n as int) =~= Seq::<usize>::empty());
                        }
                    }
                    assert forall|k: int| 0 <= k < n implies #[trigger] m@[k] < ext@[k] by {
                        assert(ints(m@)[k] == m@[k]);
                    }
                    let mut c: usize = n - 1;
                    while c > 0 && m[c] + 1 >= ext[c]
                        invariant
                            c < n == sh.len() == ext@.len() == first@.len() == m@.len(),
                            p + 1 < total == product(ext@) <= product(sh) <= usize::MAX,
                            src_strides@.len() == n,
                            forall|i: int| 0 <= i < n ==> src_strides@[i] as nat == #[trigger] stride(sh, i),
                            forall|k: int| 0 <= k < n ==> first@[k] as int == #[trigger] st_spec[k],
                            forall|k: int| 0 <= k < n ==> first@[k] + ext@[k] <= #[trigger] sh[k],
                            st_spec.len() == n,
                            in_bounds(ints(m@), ext@),
                            forall|k: int| 0 <= k < n ==> #[trigger] m@[k] < ext@[k],
                            ravel(ints(m@), ext@) + stride(ext@, c as int) == p + 1,
                            idx == ravel(offset(st_spec, ints(m@)), sh),
                        decreases c,
                    {
                        let v = m[c];
                        let ghost mi = ints(m@);
                        let ghost mz = mi.update(c as int, 0);
                        proof {
                            assert(mi[c as int] == v);
                            lemma_ravel_update(mi, ext@, c as int, 0);
                            let off = offset(st_spec, mi);
                            lemma_ravel_update(off, sh, c as int, st_spec[c as int]);
                            assert(offset(st_spec, mz) =~= off.update(c as int, st_spec[c as int]));
                            let ss = stride(sh, c as int) as int;
                            let vv = v as int;
                            assert((st_spec[c as int] - off[c as int]) * ss == -(vv * ss)) by (nonlinear_arith)
                                requires
                                    off[c as int] == st_spec[c as int] + vv,
                            ;
                            let se = stride(ext@, c as int) as int;
                            assert((0 - mi[c as int]) * se == -(vv * se)) by (nonlinear_arith)
                                requires
                                    mi[c as int] == vv,
                            ;
                            lemma_tail_tail(ext@, c as int);
                            let e = ext@[c as int] as int;
                            let sc = stride(ext@, c as int) as int;
                            assert(v == e - 1);
                            assert((e - 1) * sc + sc == e * sc) by (nonlinear_arith);
                            assert(in_bounds(mz, ext@));
                            lemma_offset_in_bounds(st_spec, mz, ext@, sh);
                            lemma_ravel_in_bounds(offset(st_spec, mz), sh);
                            assert(src_strides@[c as int] as nat == stride(sh, c as int));
                        }
                        idx = idx - v * src_strides[c];
                        m.set(c, 0);
                        assert(ints(m@) =~= mz);
                        c = c - 1;
                    }
                    let v = m[c];
                    let ghost mi = ints(m@);
                    let ghost mv = mi.update(c as int, v + 1);
                    proof {
                        assert(mi[c as int] == v);
                        if c == 0 && v + 1 >= ext@[0] {
                            lemma_in_bounds_tail(mi, ext@, 1);
                            lemma_ravel_in_bounds(mi.subrange(1, n as int), tail_from(ext@, 1));
                            let e = ext@[0] as int;
                            let s0 = stride(ext@, 0) as int;
                            assert(product(ext@) == e * s0);
                            assert((e - 1) * s0 + s0 == e * s0) by (nonlinear_arith);
                            assert(false);
                        }
                        lemma_ravel_update(mi, ext@, c as int, v + 1);
                        let off = offset(st_spec, mi);
                        lemma_ravel_update(off, sh, c as int, st_spec[c as int] + v + 1);
                        assert(offset(st_spec, mv) =~= off.update(c as int, st_spec[c as int] + v + 1));
                        let ss = stride(sh, c as int) as int;
                        let se = stride(ext@, c as int) as int;
                        assert((st_spec[c as int] + v + 1 - off[c as int]) * ss == ss) by (nonlinear_arith)
                            requires
                                off[c as int] == st_spec[c as int] + v,
                        ;
                        assert((v + 1 - mi[c as int]) * se == se) by (nonlinear_arith)
                            requires
                                mi[c as int] == v,
                        ;
                        assert(in_bounds(mv, ext@));
                        lemma_offset_in_bounds(st_spec, mv, ext@, sh);
                        lemma_ravel_in_bounds(offset(st_spec, mv), sh);
                        assert(src_strides@[c as int] as nat == stride(sh, c as int));
                    }
                    idx = idx + src_strides[c];
                    m.set(c, v + 1);
                    assert(ints(m@) =~= mv);
                }
                p = p + 1;
                assert(data@ =~= want.take(p as int));
            }
        }
        assert(data@ =~= want);
        Ok(Tensor { data, shape: out })
    }

    /// Swaps two axes. The elements are copied to their new positions.
    pub fn swapaxes(&self, axis1: usize, axis2: usize) -> (r: Result<Tensor<T>, TensorError>)
        requires
            self.wf(),
        ensures
            view_result(r) == swapaxes_view(self@, axis1 as nat, axis2 as nat),
            r matches Ok(t) ==> t.wf(),
    {
        if axis1 >= self.ndim() || axis2 >= self.ndim() || axis1 == axis2 {
            return Err(TensorError::InvalidAxis);
        }
        let ghost s1 = self@.shape;
        let mut shape = copy_shape(self.shape.as_slice());
        let tmp = shape[axis1];
        let other = shape[axis2];
        shape.set(axis1, other);
        shape.set(axis2, tmp);
        let ghost s2 = swap_entries(s1, axis1 as int, axis2 as int);
        assert(shape@ =~= s2);
        proof {
            if axis1 < axis2 {
                lemma_product_swap(s1, axis1 as int, axis2 as int);
            } else {
                lemma_product_swap(s1, axis2 as int, axis1 as int);
                assert(swap_entries(s1, axis2 as int, axis1 as int) =~= s2);
            }
        }
        let size = self.size();
        let ghost want = Seq::new(
            size as nat,
            |j: int| self@.data[ravel(swap_entries(unravel(j, s2), axis1 as int, axis2 as int), s1)],
        );
        let mut data: Vec<T> = Vec::new();
        if size == 0 {
            assert(data@ =~= want);
            return Ok(Tensor { data, shape });
        }
        proof {
            lemma_positive_addressable(s1);
            lemma_positive_addressable(s2);
        }
        let st1 = strides_of(self.shape.as_slice());
        let st2 = strides_of(shape.as_slice());
        let mut j: usize = 0;
        while j < size
            invariant
                j <= size == product(s1) == product(s2) == self@.data.len(),
                s1 == self@.shape,
                s2 == shape@,
                s2 == swap_entries(s1, axis1 as int, axis2 as int),
                axis1 < s1.len(),
                axis2 < s1.len(),
                st1@.len() == s1.len(),
                st2@.len() == s2.len(),
                forall|i: int| 0 <= i < s1.len() ==> st1@[i] as nat == #[trigger] stride(s1, i),
                forall|i: int| 0 <= i < s2.len() ==> st2@[i] as nat == #[trigger] stride(s2, i),
                want == Seq::new(
                    size as nat,
                    |q: int|
                        self@.data[ravel(
                            swap_entries(unravel(q, s2), axis1 as int, axis2 as int),
                            s1,
                        )],
                ),
                data@ == want.take(j as int),
            decreases size - j,
        {
            let mut ii = unravel_with(j, shape.as_slice(), st2.as_slice());
            proof {
                lemma_unravel_in_bounds(j as int, s2);
            }
            let ghost u = ints(ii@);
            let a = ii[axis1];
            let b = ii[axis2];
            ii.set(axis1, b);
            ii.set(axis2, a);
            let ghost w = swap_entries(u, axis1 as int, axis2 as int);
            assert(ints(ii@) =~= w);
            assert(in_bounds(w, s1)) by {
                assert forall|k: int| 0 <= k < s1.len() implies 0 <= #[trigger] w[k] < s1[k] as int by {
                    if k == axis1 {
                        assert(s2[axis2 as int] == s1[k]);
                    } else if k == axis2 {
                        assert(s2[axis1 as int] == s1[k]);
                    } else {
                        assert(s2[k] == s1[k]);
                    }
                }
            }
            let src = ravel_with(ii.as_slice(), self.shape.as_slice(), st1.as_slice());
            proof {
                lemma_ravel_in_bounds(w, s1);
            }
            assert(u == unravel(j as int, s2));
            assert(want[j as int] == self@.data[src as int]);
            data.push(self.data[src]);
            j = j + 1;
            assert(data@ =~= want.take(j as int));
        }
        assert(want.take(size as int) =~= want);
        Ok(Tensor { data, shape })
    }

    /// Transposes a matrix (a two-dimensional tensor).
    pub fn transpose(&self) -> (r: Result<Tensor<T>, TensorError>)
        requires
            self.wf(),
        ensures
            view_result(r) == transpose_view(self@),
            r matches Ok(t) ==> t.wf(),
    {
        if self.ndim() != 2 {
            return Err(TensorError::InvalidAxis);
        }
        self.swapaxes(0, 1)
    }

    /// The position that a signed index names on axis `axis`, counting
    /// negative values from the end; `None` when it falls before the start or
    /// past the end of the axis.
    fn resolve_axis(&self, axis: usize, index: isize) -> (r: Option<usize>)
        requires
            axis < self@.shape.len(),
        ensures
            r == (if 0 <= resolve(self@.shape[axis as int], index) <= self@.shape[axis as int] {
                Some(resolve(self@.shape[axis as int], index) as usize)
            } else {
                None::<usize>
            }),
    {
        let dim = self.shape[axis];
        if index < 0 {
            let back: usize = ((-(index + 1)) as usize) + 1;
            if back > dim {
                None
            } else {
                Some(dim - back)
            }
        } else {
            let u = index as usize;
            if u > dim {
                None
            } else {
                Some(u)
            }
        }
    }

    /// Resolves a slicing request against this tensor's rank: one consuming
    /// entry per axis (the ellipsis spelled out, missing trailing axes taken
    /// whole), and the number of new axes before each axis and after the last.
    fn expand_slices(&self, slices_raw: &[AxisIndex]) -> (r: Result<
        (Vec<AxisIndex>, Vec<usize>),
        TensorError,
    >)
        ensures
            match r {
                Ok((axes, gaps)) => {
                    &&& expand_request(self@.shape.len(), slices_raw@) is Ok
                    &&& axes@ == expand_request(self@.shape.len(), slices_raw@)->Ok_0.0
                    &&& gaps@.len() == expand_request(self@.shape.len(), slices_raw@)->Ok_0.1.len()
                    &&& forall|k: int|
                        0 <= k < gaps@.len() ==> gaps@[k] as nat == #[trigger] expand_request(
                            self@.shape.len(),
                            slices_raw@,
                        )->Ok_0.1[k]
                    &&& axes@.len() == self@.shape.len()
                    &&& gaps@.len() == self@.shape.len() + 1
                },
                Err(e) => expand_request(self@.shape.len(), slices_raw@) == Err::<
                    (Seq<AxisIndex>, Seq<nat>),
                    TensorError,
                >(e),
            },
    {
        let ghost x = slices_raw@;
        let rank = self.shape.len();
        let n = slices_raw.len();
        let mut consumed: usize = 0;
        let mut ellipses: usize = 0;
        let mut i: usize = 0;
        while i < n
            invariant
                i <= n == x.len(),
                x == slices_raw@,
                consumed == count_consuming(x.take(i as int)),
                ellipses == count_ellipsis(x.take(i as int)),
                consumed <= i,
                ellipses <= i,
            decreases n - i,
        {
            assert(x.take(i + 1).drop_last() =~= x.take(i as int));
            match slices_raw[i] {
                AxisIndex::NewAxis => {},
                AxisIndex::Ellipsis => {
                    ellipses = ellipses + 1;
                },
                _ => {
                    consumed = consumed + 1;
                },
            }
            i = i + 1;
        }
        assert(x.take(n as int) =~= x);
        if consumed > rank {
            return Err(TensorError::TooManyIndices);
        }
        if ellipses > 1 {
            return Err(TensorError::MultipleEllipsis);
        }
        let e = rank - consumed;
        let mut y: Vec<AxisIndex> = Vec::new();
        let mut i: usize = 0;
        while i < n
            invariant
                i <= n == x.len(),
                x == slices_raw@,
                e == rank - count_consuming(x),
                y@ == replace_ellipsis(x.take(i as int), e as nat),
                count_consuming(y@) == count_consuming(x.take(i as int)) + e * count_ellipsis(
                    x.take(i as int),
                ),
                count_ellipsis(x.take(i as int)) == 0 ==> y@ == x.take(i as int),
            decreases n - i,
        {
            let ghost prev = y@;
            let ghost xi = x.take(i as int);
            assert(x.take(i + 1).drop_last() =~= xi);
            let a = slices_raw[i];
            if let AxisIndex::Ellipsis = a {
                let mut j: usize = 0;
                while j < e
                    invariant
                        j <= e,
                        y@ == prev + fulls(j as nat),
                        count_consuming(y@) == count_consuming(prev) + j,
                    decreases e - j,
                {
                    assert((prev + fulls(j as nat)).push(AxisIndex::Full) =~= prev + fulls(
                        (j + 1) as nat,
                    ));
                    y.push(AxisIndex::Full);
                    assert(y@.drop_last() =~= prev + fulls(j as nat));
                    j = j + 1;
                }
                let ghost c = count_ellipsis(xi);
                assert(e * (c + 1) == e * c + e) by (nonlinear_arith);
            } else {
                y.push(a);
                assert(y@.drop_last() =~= prev);
                assert(x.take(i + 1) =~= xi.push(a));
            }
            i = i + 1;
        }
        assert(x.take(n as int) =~= x);
        if ellipses == 0 {
            let ghost prev = y@;
            let mut j: usize = 0;
            while j < e
                invariant
                    j <= e,
                    y@ == prev + fulls(j as nat),
                    count_consuming(y@) == count_consuming(prev) + j,
                decreases e - j,
            {
                assert((prev + fulls(j as nat)).push(AxisIndex::Full) =~= prev + fulls(
                    (j + 1) as nat,
                ));
                y.push(AxisIndex::Full);
                assert(y@.drop_last() =~= prev + fulls(j as nat));
                j = j + 1;
            }
        } else {
            assert(e * 1 == e);
        }
        let ghost ys = y@;
        assert(ys == expanded(rank as nat, x));
        assert(count_consuming(ys) == rank);
        let m = y.len();
        let mut axes: Vec<AxisIndex> = Vec::new();
        let mut gaps: Vec<usize> = vec![0];
        let mut j: usize = 0;
        assert(ys.take(0) =~= Seq::<AxisIndex>::empty());
        assert(gaps@ =~= seq![0usize]);
        while j < m
            invariant
                j <= m == ys.len(),
                ys == y@,
                axes@ == axes_of(ys.take(j as int)),
                gaps@.len() == gaps_of(ys.take(j as int)).len(),
                forall|k: int|
                    0 <= k < gaps@.len() ==> gaps@[k] as nat == #[trigger] gaps_of(
                        ys.take(j as int),
                    )[k],
                forall|k: int| 0 <= k < gaps@.len() ==> gaps@[k] <= j,
            decreases m - j,
        {
            proof {
                lemma_axes_len(ys.take(j as int));
            }
            assert(ys.take(j + 1).drop_last() =~= ys.take(j as int));
            let a = y[j];
            match a {
                AxisIndex::NewAxis => {
                    let last = gaps.len() - 1;
                    let v = gaps[last] + 1;
                    gaps.set(last, v);
                },
                AxisIndex::Ellipsis => {},
                _ => {
                    axes.push(a);
                    gaps.push(0);
                },
            }
            j = j + 1;
        }
        assert(ys.take(m as int) =~= ys);
        proof {
            lemma_axes_len(ys);
        }
        Ok((axes, gaps))
    }

    /// Takes a flat row-major position and returns the per-axis indices.
    pub fn unravel_index(&self, index: usize) -> (r: Vec<usize>)
        requires
            self.wf(),
            index < self@.data.len(),
        ensures
            ints(r@) == unravel(index as int, self@.shape),
            in_bounds(ints(r@), self@.shape),
    {
        let _size = self.size();
        proof {
            lemma_positive_addressable(self@.shape);
            lemma_unravel_in_bounds(index as int, self@.shape);
        }
        let st = strides_of(self.shape.as_slice());
        unravel_with(index, self.shape.as_slice(), st.as_slice())
    }

    /// Takes per-axis indices and returns the flat row-major position.
    pub fn ravel_index(&self, ii: &[usize]) -> (r: usize)
        requires
            self.wf(),
            in_bounds(ints(ii@), self@.shape),
        ensures
            r as int == ravel(ints(ii@), self@.shape),
            r < self@.data.len(),
    {
        let _size = self.size();
        proof {
            lemma_ravel_in_bounds(ints(ii@), self@.shape);
            lemma_positive_addressable(self@.shape);
        }
        let st = strides_of(self.shape.as_slice());
        ravel_with(ii, self.shape.as_slice(), st.as_slice())
    }

    /// Converts a requested shape, in which one axis may be the wildcard `-1`,
    /// to concrete sizes for this tensor's element count.
    fn convert_shape(&self, shape: &[isize]) -> (r: Result<Vec<usize>, TensorError>)
        requires
            self.wf(),
        ensures
            match r {
                Ok(s) => reshape_target(self@.data.len(), shape@) == Ok::<
                    Seq<usize>,
                    TensorError,
                >(s@),
                Err(e) => reshape_target(self@.data.len(), shape@) == Err::<
                    Seq<usize>,
                    TensorError,
                >(e),
            },
    {
        let ghost req = shape@;
        let n = shape.len();
        let mut missing: Option<usize> = None;
        let mut ones_filled: Vec<usize> = Vec::new();
        let mut i: usize = 0;
        while i < n
            invariant
                i <= n == req.len(),
                req == shape@,
                ones_filled@ == fill_wildcard(req.take(i as int), 1),
                forall|k: int| 0 <= k < i ==> req[k] >= -1,
                match missing {
                    Some(w) => w < i && req[w as int] == -1 && forall|k: int|
                        0 <= k < i && k != w ==> req[k] != -1,
                    None => forall|k: int| 0 <= k < i ==> req[k] != -1,
                },
            decreases n - i,
        {
            let x = shape[i];
            if x < -1 {
                return Err(TensorError::ShapeMismatch);
            }
            if x == -1 {
                if let Some(w) = missing {
                    assert(req[w as int] == -1 && req[i as int] == -1);
                    return Err(TensorError::ShapeMismatch);
                }
                missing = Some(i);
                ones_filled.push(1);
            } else {
                ones_filled.push(x as usize);
            }
            assert(fill_wildcard(req.take(i + 1), 1) =~= fill_wildcard(req.take(i as int), 1).push(
                ones_filled@.last(),
            ));
            i = i + 1;
        }
        assert(req.take(n as int) =~= req);
        assert(!has_bad_size(req));
        assert(!has_two_wildcards(req));
        let size = self.size();
        let d: usize = match missing {
            Some(w) => {
                assert(has_wildcard(req));
                match checked_product(ones_filled.as_slice()) {
                    Some(p) => {
                        if p == 0 {
                            return Err(TensorError::ShapeMismatch);
                        }
                        size / p
                    },
                    None => {
                        assert(size as nat / product(fill_wildcard(req, 1)) == 0) by (nonlinear_arith)
                            requires
                                size < product(fill_wildcard(req, 1)),
                        ;
                        0
                    },
                }
            },
            None => 0,
        };
        let mut sh: Vec<usize> = Vec::new();
        let mut j: usize = 0;
        while j < n
            invariant
                j <= n == req.len(),
                req == shape@,
                forall|k: int| 0 <= k < n ==> req[k] >= -1,
                sh@ == fill_wildcard(req.take(j as int), d),
            decreases n - j,
        {
            let x = shape[j];
            if x == -1 {
                sh.push(d);
            } else {
                sh.push(x as usize);
            }
            assert(fill_wildcard(req.take(j + 1), d) =~= fill_wildcard(req.take(j as int), d).push(
                sh@.last(),
            ));
            j = j + 1;
        }
        assert(req.take(n as int) =~= req);
        assert(has_wildcard(req) == missing.is_some());
        assert(fill_wildcard(req, d) == fill_wildcard(
            req,
            if has_wildcard(req) {
                (size as nat / product(fill_wildcard(req, 1))) as usize
            } else {
                0
            },
        ));
        match checked_product(sh.as_slice()) {
            Some(total) => {
                if total == size {
                    Ok(sh)
                } else {
                    Err(TensorError::ShapeMismatch)
                }
            },
            None => Err(TensorError::ShapeMismatch),
        }
    }

    /// Gives the tensor a new shape with the same elements; one axis may be the
    /// wildcard `-1`, whose size then follows from the others.
    pub fn reshaped(self, shape: &[isize]) -> (r: Result<Tensor<T>, TensorError>)
        requires
            self.wf(),
        ensures
            view_result(r) == reshape_view(self@, shape@),
            r matches Ok(t) ==> t.wf(),
    {
        let proper_shape = self.convert_shape(shape)?;
        Ok(Tensor { data: self.data, shape: proper_shape })
    }
}

impl<T: Element> Tensor<T> {
    /// Creates a zero-filled tensor of the given shape.
    pub fn zeros(shape: &[usize]) -> (r: Tensor<T>)
        requires
            product(shape@) <= usize::MAX,
        ensures
            r.wf(),
            r@.shape == shape@,
            r@.data == Seq::new(product(shape@), |i: int| T::spec_zero()),
    {
        Tensor::filled(shape, T::zero())
    }

    /// Creates a one-filled tensor of the given shape.
    pub fn ones(shape: &[usize]) -> (r: Tensor<T>)
        requires
            product(shape@) <= usize::MAX,
        ensures
            r.wf(),
            r@.shape == shape@,
            r@.data == Seq::new(product(shape@), |i: int| T::spec_one()),
    {
        Tensor::filled(shape, T::one())
    }

    /// Creates the one-dimensional tensor `0, 1, ..., size - 1`, counting up
    /// from zero by repeated addition of one.
    pub fn range(size: usize) -> (r: Tensor<T>)
        requires
            counts_fit::<T>(size as nat),
        ensures
            r.wf(),
            r@.shape == seq![size],
            r@.data == Seq::new(size as nat, |i: int| count::<T>(i as nat)),
    {
        let mut data: Vec<T> = Vec::new();
        let mut v = T::zero();
        let mut i: usize = 0;
        while i < size
            invariant
                i <= size,
                counts_fit::<T>(size as nat),
                v == count::<T>(i as nat),
                data@ == Seq::new(i as nat, |k: int| count::<T>(k as nat)),
            decreases size - i,
        {
            data.push(v);
            assert(T::spec_plus_ok(count::<T>(i as nat), T::spec_one()));
            v = v.plus(T::one());
            i = i + 1;
            assert(data@ =~= Seq::new(i as nat, |k: int| count::<T>(k as nat)));
        }
        let shape = vec![size];
        proof {
            lemma_product_single(size);
            assert(shape@ =~= seq![size]);
        }
        Tensor { data, shape }
    }

    /// Creates an identity matrix: a `size` by `size` tensor that is zero
    /// except on the diagonal, which holds ones.
    pub fn eye(size: usize) -> (r: Tensor<T>)
        requires
            size * size <= usize::MAX,
        ensures
            r.wf(),
            r@.shape == seq![size, size],
            forall|i: int, j: int|
                0 <= i < size && 0 <= j < size ==> #[trigger] r@.data[i * size + j] == if i == j {
                    T::spec_one()
                } else {
                    T::spec_zero()
                },
    {
        let ghost s2 = seq![size, size];
        proof {
            lemma_product_single(size);
            assert(s2.subrange(1, 2) =~= seq![size]);
            assert(product(s2) == size * size);
        }
        let mut t = Tensor::zeros(&[size, size]);
        assert(t@.shape =~= s2);
        assert forall|i: int, j: int| 0 <= i < size && 0 <= j < size implies #[trigger] t@.data[i
            * size + j] == if i == j && i < 0 {
            T::spec_one()
        } else {
            T::spec_zero()
        } by {
            lemma_matrix_index(s2, i, j);
        }
        let mut k: usize = 0;
        while k < size
            invariant
                k <= size,
                size * size <= usize::MAX,
                t.wf(),
                s2 == seq![size, size],
                t@.shape == s2,
                t@.data.len() == size * size,
                forall|i: int, j: int|
                    0 <= i < size && 0 <= j < size ==> #[trigger] t@.data[i * size + j] == if i == j
                        && i < k {
                        T::spec_one()
                    } else {
                        T::spec_zero()
                    },
            decreases size - k,
        {
            let ghost before = t@.data;
            t.set(k, k, T::one());
            assert(t@.data == before.update(k * size + k, T::spec_one()));
            assert forall|i: int, j: int| 0 <= i < size && 0 <= j < size implies #[trigger] t@.data[i
                * size + j] == if i == j && i < k + 1 {
                T::spec_one()
            } else {
                T::spec_zero()
            } by {
                let kk = k as int;
                let n = size as int;
                lemma_matrix_index(s2, i, j);
                if i * n + j == kk * n + kk {
                    assert(i == kk && j == kk) by (nonlinear_arith)
                        requires
                            i * n + j == kk * n + kk,
                            0 <= i < n,
                            0 <= j < n,
                            0 <= kk < n,
                    ;
                } else {
                    lemma_matrix_index(s2, kk, kk);
                    assert(t@.data[i * n + j] == before[i * n + j]);
                }
            }
            k = k + 1;
        }
        t
    }

    /// The element at row `i`, column `j` of a matrix.
    #[allow(dead_code)]
    fn get(&self, i: usize, j: usize) -> (r: T)
        requires
            self.wf(),
            self@.shape.len() == 2,
            i < self@.shape[0],
            j < self@.shape[1],
        ensures
            r == self@.data[i * self@.shape[1] + j],
    {
        let _n = self.data.len();
        proof {
            lemma_matrix_index(self@.shape, i as int, j as int);
        }
        self.data[i * self.shape[1] + j]
    }

    /// Sets the element at row `i`, column `j` of a matrix.
    fn set(&mut self, i: usize, j: usize, v: T)
        requires
            old(self).wf(),
            old(self)@.shape.len() == 2,
            i < old(self)@.shape[0],
            j < old(self)@.shape[1],
        ensures
            final(self).wf(),
            final(self)@.shape == old(self)@.shape,
            final(self)@.data == old(self)@.data.update(i * old(self)@.shape[1] + j, v),
    {
        let _n = self.data.len();
        proof {
            lemma_matrix_index(self@.shape, i as int, j as int);
        }
        let ncols = self.shape[1];
        self.data.set(i * ncols + j, v);
    }
}

/// A multi-index within the extents, shifted by starts whose ranges fit their
/// axes, lies within the source shape.
proof fn lemma_offset_in_bounds(st: Seq<int>, m: Seq<int>, ext: Seq<usize>, sh: Seq<usize>)
    requires
        st.len() == sh.len() == ext.len(),
        in_bounds(m, ext),
        forall|k: int| 0 <= k < sh.len() ==> 0 <= #[trigger] st[k] && st[k] + ext[k] <= sh[k],
    ensures
        in_bounds(offset(st, m), sh),
{
    let o = offset(st, m);
    assert forall|k: int| 0 <= k < sh.len() implies 0 <= #[trigger] o[k] < sh[k] as int by {
        assert(0 <= st[k] && st[k] + ext[k] <= sh[k]);
        assert(0 <= m[k] < ext[k]);
    }
}

/// Row `i`, column `j` of a matrix lies inside its buffer.
proof fn lemma_matrix_index(s: Seq<usize>, i: int, j: int)
    requires
        s.len() == 2,
        0 <= i < s[0],
        0 <= j < s[1],
    ensures
        0 <= i * s[1] + j < product(s),
{
    let rows = s[0] as int;
    let cols = s[1] as int;
    lemma_product_single(s[1]);
    assert(s.subrange(1, 2) =~= seq![s[1]]);
    assert(product(s) == rows * cols);
    assert(0 <= i * cols + j < rows * cols) by (nonlinear_arith)
        requires
            0 <= i < rows,
            0 <= j < cols,
    ;
}

} // verus!
