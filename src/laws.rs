//! Properties that relate several tensor operations, stated over the models
//! that the operations' own contracts use.
use vstd::prelude::*;
use crate::axis::{
    axes_of, count_consuming, count_ellipsis, expand_request, expanded, extents, fulls, gaps_of,
    ones, sliced_shape, sliced_shape_upto, starts, AxisIndex, TensorError,
};
use crate::shape::{
    in_bounds, lemma_product_single, lemma_product_swap, lemma_ravel_in_bounds,
    lemma_ravel_unravel, lemma_unravel_in_bounds, lemma_unravel_len, lemma_unravel_ravel, product,
    ravel, stride, swap_entries, tail_from, unravel,
};
use crate::tensor::{
    fill_wildcard, has_bad_size, has_two_wildcards, has_wildcard, offset, reshape_target,
    reshape_view, slice_view, swapaxes_view, transpose_view, TensorView,
};

verus! {

/// The last stride of a shape is 1, and each earlier stride is the next
/// stride times the next dimension.
pub proof fn lemma_strides_recurrence(s: Seq<usize>)
    requires
        s.len() >= 1,
    ensures
        stride(s, s.len() - 1) == 1,
        forall|i: int| 0 <= i < s.len() - 1 ==> #[trigger] stride(s, i) == stride(s, i + 1) * (s[i
            + 1] as nat),
{
    assert(tail_from(s, s.len() as int) =~= Seq::<usize>::empty());
    assert forall|i: int| 0 <= i < s.len() - 1 implies #[trigger] stride(s, i) == stride(s, i + 1)
        * (s[i + 1] as nat) by {
        let t = tail_from(s, i + 1);
        assert(t.subrange(1, t.len() as int) =~= tail_from(s, i + 2));
        assert(t[0] == s[i + 1]);
        let d = s[i + 1] as int;
        let p = stride(s, i + 1) as int;
        assert(d * p == p * d) by (nonlinear_arith);
    }
}

/// The sizes of a shape written as a reshape request.
pub open spec fn as_request(s: Seq<usize>) -> Seq<isize> {
    s.map_values(|d: usize| d as isize)
}

/// Reshaping a tensor and then reshaping the result back to the shape it
/// started with gives the same tensor, elements and shape alike.
pub proof fn lemma_reshape_round_trip<T>(v: TensorView<T>, req: Seq<isize>)
    requires
        v.valid(),
        reshape_view(v, req) is Ok,
        forall|i: int| 0 <= i < v.shape.len() ==> v.shape[i] <= isize::MAX,
    ensures
        reshape_view(reshape_view(v, req)->Ok_0, as_request(v.shape)) == Ok::<
            TensorView<T>,
            TensorError,
        >(v),
{
    let w = reshape_view(v, req)->Ok_0;
    let back = as_request(v.shape);
    assert(w.data == v.data);
    assert(!has_bad_size(back));
    assert(!has_two_wildcards(back));
    assert(!has_wildcard(back));
    assert(fill_wildcard(back, 0) =~= v.shape);
    assert(reshape_target(w.data.len(), back) == Ok::<Seq<usize>, TensorError>(v.shape));
}

proof fn lemma_fulls_expand(n: nat)
    ensures
        count_consuming(fulls(n)) == n,
        count_ellipsis(fulls(n)) == 0,
        axes_of(fulls(n)) == fulls(n),
        gaps_of(fulls(n)) == Seq::new(n + 1, |i: int| 0nat),
    decreases n,
{
    if n > 0 {
        let m = (n - 1) as nat;
        lemma_fulls_expand(m);
        assert(fulls(n).drop_last() =~= fulls(m));
        assert(fulls(m).push(AxisIndex::Full) =~= fulls(n));
        assert(Seq::new(m + 1, |i: int| 0nat).push(0nat) =~= Seq::new(n + 1, |i: int| 0nat));
    } else {
        assert(gaps_of(fulls(0)) =~= Seq::new(1, |i: int| 0nat));
    }
}

proof fn lemma_full_shape(shape: Seq<usize>, k: nat)
    requires
        k <= shape.len(),
    ensures
        sliced_shape_upto(
            shape,
            fulls(shape.len()),
            Seq::new(shape.len() + 1, |i: int| 0nat),
            k,
        ) == shape.take(k as int),
    decreases k,
{
    let ax = fulls(shape.len());
    let gp = Seq::new(shape.len() + 1, |i: int| 0nat);
    assert(ones(0) =~= Seq::<usize>::empty());
    if k > 0 {
        lemma_full_shape(shape, (k - 1) as nat);
        assert(extents(shape, ax)[k - 1] == shape[k - 1]);
        assert(shape.take(k - 1) + seq![shape[k - 1]] + ones(0) =~= shape.take(k as int));
    } else {
        assert(shape.take(0) =~= Seq::<usize>::empty());
    }
}

/// Selecting every axis whole gives the tensor back.
pub proof fn lemma_slice_everything<T>(v: TensorView<T>)
    requires
        v.valid(),
    ensures
        slice_view(v, fulls(v.shape.len())) == Ok::<TensorView<T>, TensorError>(v),
{
    let r = v.shape.len();
    let x = fulls(r);
    lemma_fulls_expand(r);
    assert(x + fulls(0) =~= x);
    assert(expanded(r, x) == x);
    let gp = Seq::new(r + 1, |i: int| 0nat);
    assert(expand_request(r, x) == Ok::<(Seq<AxisIndex>, Seq<nat>), TensorError>((x, gp)));
    let st = starts(v.shape, x);
    let ext = extents(v.shape, x);
    assert(ext =~= v.shape);
    lemma_full_shape(v.shape, r);
    assert(v.shape.take(r as int) =~= v.shape);
    assert(sliced_shape(v.shape, x, gp) == v.shape);
    let d = Seq::new(product(ext), |p: int| v.data[ravel(offset(st, unravel(p, ext)), v.shape)]);
    assert forall|p: int| 0 <= p < d.len() implies #[trigger] d[p] == v.data[p] by {
        lemma_unravel_len(p, v.shape);
        assert(offset(st, unravel(p, v.shape)) =~= unravel(p, v.shape));
        lemma_ravel_unravel(p, v.shape);
    }
    assert(d =~= v.data);
}

/// On a one-dimensional tensor of `n > 0` elements, selecting index `-1`
/// gives the tensor that holds only the last element (the axis is dropped).
pub proof fn lemma_slice_last<T>(v: TensorView<T>)
    requires
        v.valid(),
        v.shape.len() == 1,
        v.shape[0] > 0,
    ensures
        slice_view(v, seq![AxisIndex::Index(-1isize)]) == Ok::<TensorView<T>, TensorError>(
            TensorView { shape: Seq::<usize>::empty(), data: seq![v.data[v.shape[0] - 1]] },
        ),
{
    let n = v.shape[0];
    let x = seq![AxisIndex::Index(-1isize)];
    assert(v.shape =~= seq![n]);
    lemma_product_single(n);
    assert(x.drop_last() =~= Seq::<AxisIndex>::empty());
    assert(count_consuming(Seq::<AxisIndex>::empty()) == 0);
    assert(count_ellipsis(Seq::<AxisIndex>::empty()) == 0);
    assert(x.last() == AxisIndex::Index(-1isize));
    assert(count_consuming(x) == 1);
    assert(count_ellipsis(x) == 0);
    assert(x + fulls(0) =~= x);
    assert(axes_of(Seq::<AxisIndex>::empty()) == Seq::<AxisIndex>::empty());
    assert(gaps_of(Seq::<AxisIndex>::empty()) == seq![0nat]);
    assert(axes_of(x) =~= x);
    assert(gaps_of(x) =~= seq![0nat, 0nat]);
    let gp = seq![0nat, 0nat];
    assert(expand_request(1, x) == Ok::<(Seq<AxisIndex>, Seq<nat>), TensorError>((x, gp)));
    let ext = extents(v.shape, x);
    assert(ext =~= seq![1usize]);
    let st = starts(v.shape, x);
    assert(st =~= seq![n - 1]);
    assert(ones(0) =~= Seq::<usize>::empty());
    assert(sliced_shape_upto(v.shape, x, gp, 0) =~= Seq::<usize>::empty());
    assert(sliced_shape(v.shape, x, gp) =~= Seq::<usize>::empty());
    lemma_product_single(1);
    lemma_product_single(n);
    assert(tail_from(ext, 1) =~= Seq::<usize>::empty());
    assert(tail_from(v.shape, 1) =~= Seq::<usize>::empty());
    assert(stride(ext, 0) == 1);
    assert(stride(v.shape, 0) == 1);
    assert(unravel(0int, Seq::<usize>::empty()) == Seq::<int>::empty());
    assert(ravel(Seq::<int>::empty(), Seq::<usize>::empty()) == 0);
    assert(0int / 1int == 0 && 0int % 1int == 0);
    let u = unravel(0, ext);
    assert(u == seq![0int / 1int] + unravel(0int % 1int, tail_from(ext, 1)));
    assert(u =~= seq![0int]);
    let o = offset(st, u);
    assert(o =~= seq![n - 1]);
    assert(o.subrange(1, 1) =~= Seq::<int>::empty());
    assert(ravel(o, v.shape) == o[0] * 1 + ravel(Seq::<int>::empty(), Seq::<usize>::empty()));
    assert(ravel(o, v.shape) == n - 1);
    let d = Seq::new(product(ext), |p: int| v.data[ravel(offset(st, unravel(p, ext)), v.shape)]);
    assert(d =~= seq![v.data[n - 1]]);
}

/// Swapping the same two axes twice gives the tensor back.
pub proof fn lemma_swapaxes_twice<T>(v: TensorView<T>, a1: nat, a2: nat)
    requires
        v.valid(),
        a1 < v.shape.len(),
        a2 < v.shape.len(),
        a1 != a2,
    ensures
        swapaxes_view(v, a1, a2) is Ok,
        (swapaxes_view(v, a1, a2)->Ok_0).valid(),
        swapaxes_view(swapaxes_view(v, a1, a2)->Ok_0, a1, a2) == Ok::<TensorView<T>, TensorError>(
            v,
        ),
{
    let s = v.shape;
    let s2 = swap_entries(s, a1 as int, a2 as int);
    let w = swapaxes_view(v, a1, a2)->Ok_0;
    if a1 < a2 {
        lemma_product_swap(s, a1 as int, a2 as int);
    } else {
        lemma_product_swap(s, a2 as int, a1 as int);
        assert(swap_entries(s, a2 as int, a1 as int) =~= s2);
    }
    assert(swap_entries(s2, a1 as int, a2 as int) =~= s);
    let u = swapaxes_view(w, a1, a2)->Ok_0;
    assert forall|j: int| 0 <= j < v.data.len() implies #[trigger] u.data[j] == v.data[j] by {
        lemma_unravel_in_bounds(j, s);
        let m = unravel(j, s);
        let sm = swap_entries(m, a1 as int, a2 as int);
        assert(in_bounds(sm, s2)) by {
            assert forall|k: int| 0 <= k < s2.len() implies 0 <= #[trigger] sm[k] < s2[k] as int by {
                if k == a1 {
                    assert(s2[k] == s[a2 as int]);
                } else if k == a2 {
                    assert(s2[k] == s[a1 as int]);
                }
            }
        }
        lemma_ravel_in_bounds(sm, s2);
        lemma_unravel_ravel(sm, s2);
        assert(swap_entries(sm, a1 as int, a2 as int) =~= m);
        lemma_ravel_unravel(j, s);
    }
    assert(u.data =~= v.data);
    assert(u.shape =~= v.shape);
}

/// Transposing a matrix twice gives the matrix back.
pub proof fn lemma_transpose_twice<T>(v: TensorView<T>)
    requires
        v.valid(),
        v.shape.len() == 2,
    ensures
        transpose_view(v) is Ok,
        transpose_view(transpose_view(v)->Ok_0) == Ok::<TensorView<T>, TensorError>(v),
{
    lemma_swapaxes_twice(v, 0, 1);
}

/// A request with more consuming entries than the tensor has axes is refused
/// with `TooManyIndices`; otherwise one with two or more ellipses is refused
/// with `MultipleEllipsis`.
pub proof fn lemma_slice_rejects<T>(v: TensorView<T>, x: Seq<AxisIndex>)
    ensures
        count_consuming(x) > v.shape.len() ==> slice_view(v, x) == Err::<TensorView<T>, TensorError>(
            TensorError::TooManyIndices,
        ),
        count_consuming(x) <= v.shape.len() && count_ellipsis(x) > 1 ==> slice_view(v, x) == Err::<
            TensorView<T>,
            TensorError,
        >(TensorError::MultipleEllipsis),
{
}

} // verus!
