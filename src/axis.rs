//! Slicing requests: the kinds of per-axis index, the errors a tensor
//! operation reports, and what a request resolves to on a tensor of a given
//! rank and shape.
use vstd::prelude::*;
use crate::shape::{lemma_product_concat, lemma_product_single, product};

verus! {

/// Used for advanced slicing of a `Tensor`.
#[derive(Clone, Copy, Debug, PartialEq, Eq, Structural)]
pub enum AxisIndex {
    /// Indexes from start to end for this axis.
    Full,
    /// Indexes from start to end for all axes in the middle. A maximum of one can be used.
    Ellipsis,
    /// Creates a new axis of length 1 at this location.
    NewAxis,
    /// Picks one element of an axis. This removes that axis from the tensor.
    Index(isize),
    /// A half-open range: `Slice(2, 5)` picks out indices 2, 3 and 4.
    Slice(isize, isize),
    /// From the start (inclusive) to the end of the axis.
    SliceFrom(isize),
    /// From the beginning of the axis to the end (exclusive).
    SliceTo(isize),
}

/// Why a tensor operation was refused.
#[derive(Clone, Copy, Debug, PartialEq, Eq, Structural)]
pub enum TensorError {
    /// A requested shape does not hold the tensor's elements, or names more
    /// than one wildcard axis, or a negative size other than the wildcard.
    ShapeMismatch,
    /// An axis outside the tensor, two equal axes, or a transpose of a tensor
    /// that is not two-dimensional.
    InvalidAxis,
    /// More than one `Ellipsis` in a slicing request.
    MultipleEllipsis,
    /// More axis-consuming entries in a slicing request than the tensor has axes.
    TooManyIndices,
    /// An index or range endpoint outside its axis once negative values are
    /// counted from the end.
    IndexOutOfRange,
}

/// Whether the entry stands for one axis of the source tensor.
pub open spec fn consumes(a: AxisIndex) -> bool {
    !(a is Ellipsis) && !(a is NewAxis)
}

/// How many entries of `x` stand for a source axis.
pub open spec fn count_consuming(x: Seq<AxisIndex>) -> nat
    decreases x.len(),
{
    if x.len() == 0 {
        0
    } else {
        count_consuming(x.drop_last()) + if consumes(x.last()) {
            1nat
        } else {
            0nat
        }
    }
}

/// How many entries of `x` are `Ellipsis`.
pub open spec fn count_ellipsis(x: Seq<AxisIndex>) -> nat
    decreases x.len(),
{
    if x.len() == 0 {
        0
    } else {
        count_ellipsis(x.drop_last()) + if x.last() is Ellipsis {
            1nat
        } else {
            0nat
        }
    }
}

/// `n` entries `Full`.
pub open spec fn fulls(n: nat) -> Seq<AxisIndex> {
    Seq::new(n, |i: int| AxisIndex::Full)
}

/// `x` with each `Ellipsis` replaced by `e` entries `Full`.
pub open spec fn replace_ellipsis(x: Seq<AxisIndex>, e: nat) -> Seq<AxisIndex>
    decreases x.len(),
{
    if x.len() == 0 {
        seq![]
    } else if x.last() is Ellipsis {
        replace_ellipsis(x.drop_last(), e) + fulls(e)
    } else {
        replace_ellipsis(x.drop_last(), e).push(x.last())
    }
}

/// A request on a tensor of the given rank with its ellipsis spelled out: the
/// ellipsis, or else the end of the request, stands for as many `Full`
/// entries as there are axes that no entry consumes.
pub open spec fn expanded(rank: nat, x: Seq<AxisIndex>) -> Seq<AxisIndex> {
    let e = (rank - count_consuming(x)) as nat;
    if count_ellipsis(x) == 0 {
        x + fulls(e)
    } else {
        replace_ellipsis(x, e)
    }
}

/// The axis-consuming entries of `x`, in order.
pub open spec fn axes_of(x: Seq<AxisIndex>) -> Seq<AxisIndex>
    decreases x.len(),
{
    if x.len() == 0 {
        seq![]
    } else if consumes(x.last()) {
        axes_of(x.drop_last()).push(x.last())
    } else {
        axes_of(x.drop_last())
    }
}

/// Entry `k` is the number of `NewAxis` entries of `x` between the consuming
/// entries number `k - 1` and `k` (before the first for 0, after the last for
/// the final entry).
pub open spec fn gaps_of(x: Seq<AxisIndex>) -> Seq<nat>
    decreases x.len(),
{
    if x.len() == 0 {
        seq![0nat]
    } else if x.last() is NewAxis {
        let g = gaps_of(x.drop_last());
        g.update(g.len() - 1, g.last() + 1)
    } else if consumes(x.last()) {
        gaps_of(x.drop_last()).push(0nat)
    } else {
        gaps_of(x.drop_last())
    }
}

/// What a slicing request resolves to on a tensor of the given rank: one
/// consuming entry per axis, and the number of new axes at each of the
/// `rank + 1` places around them.
pub open spec fn expand_request(rank: nat, x: Seq<AxisIndex>) -> Result<
    (Seq<AxisIndex>, Seq<nat>),
    TensorError,
> {
    if count_consuming(x) > rank {
        Err(TensorError::TooManyIndices)
    } else if count_ellipsis(x) > 1 {
        Err(TensorError::MultipleEllipsis)
    } else {
        let y = expanded(rank, x);
        Ok((axes_of(y), gaps_of(y)))
    }
}

/// A signed index on an axis of size `dim`: negative values count from the end.
pub open spec fn resolve(dim: usize, i: isize) -> int {
    if i < 0 {
        dim + i
    } else {
        i as int
    }
}

/// The half-open range `[start, end)` that the entry selects on an axis of
/// size `dim`, and whether the axis stays in the result; `None` when an index
/// or endpoint falls outside the axis.
pub open spec fn axis_range(dim: usize, a: AxisIndex) -> Option<(int, int, bool)> {
    match a {
        AxisIndex::Index(i) => {
            let r = resolve(dim, i);
            if 0 <= r < dim {
                Some((r, r + 1, false))
            } else {
                None
            }
        },
        AxisIndex::Slice(i, j) => {
            let s = resolve(dim, i);
            let e = resolve(dim, j);
            if 0 <= s <= e <= dim {
                Some((s, e, true))
            } else {
                None
            }
        },
        AxisIndex::SliceFrom(i) => {
            let s = resolve(dim, i);
            if 0 <= s <= dim {
                Some((s, dim as int, true))
            } else {
                None
            }
        },
        AxisIndex::SliceTo(j) => {
            let e = resolve(dim, j);
            if 0 <= e <= dim {
                Some((0, e, true))
            } else {
                None
            }
        },
        _ => Some((0, dim as int, true)),
    }
}

/// Every entry of `axes` selects a range inside its axis of `shape`.
pub open spec fn ranges_ok(shape: Seq<usize>, axes: Seq<AxisIndex>) -> bool {
    &&& axes.len() == shape.len()
    &&& forall|a: int| 0 <= a < shape.len() ==> (#[trigger] axis_range(shape[a], axes[a])) is Some
}

/// Where the selection starts on each axis.
pub open spec fn starts(shape: Seq<usize>, axes: Seq<AxisIndex>) -> Seq<int> {
    Seq::new(shape.len(), |a: int| axis_range(shape[a], axes[a]).unwrap().0)
}

/// How many positions the selection spans on each axis.
pub open spec fn extents(shape: Seq<usize>, axes: Seq<AxisIndex>) -> Seq<usize> {
    Seq::new(
        shape.len(),
        |a: int|
            {
                let r = axis_range(shape[a], axes[a]).unwrap();
                (r.1 - r.0) as usize
            },
    )
}

/// `n` axes of length one.
pub open spec fn ones(n: nat) -> Seq<usize> {
    Seq::new(n, |i: int| 1usize)
}

/// The shape of a slice over the first `k` source axes: the inserted axes in
/// front, then for each source axis its extent when it stays, followed by the
/// axes inserted after it.
pub open spec fn sliced_shape_upto(
    shape: Seq<usize>,
    axes: Seq<AxisIndex>,
    gaps: Seq<nat>,
    k: nat,
) -> Seq<usize>
    decreases k,
{
    if k == 0 {
        ones(gaps[0])
    } else {
        let a = k - 1;
        let kept = if axis_range(shape[a], axes[a]).unwrap().2 {
            seq![extents(shape, axes)[a]]
        } else {
            seq![]
        };
        sliced_shape_upto(shape, axes, gaps, a as nat) + kept + ones(gaps[k as int])
    }
}

/// The shape of the slice selected by `axes` with `gaps` new axes.
pub open spec fn sliced_shape(shape: Seq<usize>, axes: Seq<AxisIndex>, gaps: Seq<nat>) -> Seq<
    usize,
> {
    sliced_shape_upto(shape, axes, gaps, shape.len())
}

/// The consuming entries of `x` number `count_consuming(x)`, and the places
/// around them one more.
pub proof fn lemma_axes_len(x: Seq<AxisIndex>)
    ensures
        axes_of(x).len() == count_consuming(x),
        gaps_of(x).len() == count_consuming(x) + 1,
    decreases x.len(),
{
    if x.len() > 0 {
        lemma_axes_len(x.drop_last());
    }
}

/// Axes of length one add no elements.
pub proof fn lemma_product_ones(n: nat)
    ensures
        product(ones(n)) == 1,
    decreases n,
{
    if n > 0 {
        lemma_product_ones((n - 1) as nat);
        assert(ones(n).subrange(1, n as int) =~= ones((n - 1) as nat));
    }
}

/// A slice's shape holds as many elements as the product of the selected
/// extents: dropped axes have extent one and inserted axes have length one.
pub proof fn lemma_sliced_product(shape: Seq<usize>, axes: Seq<AxisIndex>, gaps: Seq<nat>, k: nat)
    requires
        ranges_ok(shape, axes),
        gaps.len() == shape.len() + 1,
        k <= shape.len(),
    ensures
        product(sliced_shape_upto(shape, axes, gaps, k)) == product(
            extents(shape, axes).take(k as int),
        ),
    decreases k,
{
    let ext = extents(shape, axes);
    if k == 0 {
        lemma_product_ones(gaps[0]);
        assert(ext.take(0) =~= Seq::<usize>::empty());
    } else {
        let a = (k - 1) as nat;
        lemma_sliced_product(shape, axes, gaps, a);
        let prev = sliced_shape_upto(shape, axes, gaps, a);
        let r = axis_range(shape[a as int], axes[a as int]);
        assert(r is Some);
        let kept = if r.unwrap().2 {
            seq![ext[a as int]]
        } else {
            seq![]
        };
        let tail = ones(gaps[k as int]);
        lemma_product_ones(gaps[k as int]);
        lemma_product_concat(prev, kept);
        lemma_product_concat(prev + kept, tail);
        lemma_product_single(ext[a as int]);
        if !r.unwrap().2 {
            assert(kept =~= Seq::<usize>::empty());
            assert(ext[a as int] == 1);
        }
        assert(product(kept) == ext[a as int]);
        assert(ext.take(k as int) =~= ext.take(a as int) + seq![ext[a as int]]);
        lemma_product_concat(ext.take(a as int), seq![ext[a as int]]);
        assert(sliced_shape_upto(shape, axes, gaps, k) == prev + kept + tail);
        let pp = product(prev) as int;
        let pk = product(kept) as int;
        assert(product(prev + kept + tail) == (pp * pk) * 1);
        assert((pp * pk) * 1 == pp * pk) by (nonlinear_arith);
    }
}

} // verus!
