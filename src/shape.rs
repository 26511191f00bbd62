//! Shape arithmetic: element counts, row-major strides, and the conversion
//! between flat positions and per-axis indices.
use vstd::prelude::*;

verus! {

/// The number of elements of a tensor of shape `s`: the product of its
/// dimensions (1 for the empty shape).
pub open spec fn product(s: Seq<usize>) -> nat
    decreases s.len(),
{
    if s.len() == 0 {
        1
    } else {
        (s[0] as nat) * product(s.subrange(1, s.len() as int))
    }
}

/// The trailing part of `s` that starts at axis `i`.
pub open spec fn tail_from(s: Seq<usize>, i: int) -> Seq<usize> {
    s.subrange(i, s.len() as int)
}

/// The row-major stride of axis `i`: the product of the dimensions after it.
pub open spec fn stride(s: Seq<usize>, i: int) -> nat {
    product(tail_from(s, i + 1))
}

/// Every trailing part of `s` has a product that fits in `usize`, so that the
/// element count and every stride of `s` can be computed.
pub open spec fn addressable(s: Seq<usize>) -> bool {
    forall|i: int| 0 <= i <= s.len() ==> #[trigger] product(tail_from(s, i)) <= usize::MAX
}

/// The flat row-major position of the multi-index `m` in shape `s`: the sum of
/// `m[a] * stride(s, a)` over the axes.
pub open spec fn ravel(m: Seq<int>, s: Seq<usize>) -> int
    decreases s.len(),
{
    if s.len() == 0 {
        0
    } else {
        m[0] * stride(s, 0) + ravel(m.subrange(1, m.len() as int), tail_from(s, 1))
    }
}

/// The multi-index of flat position `k` in shape `s`: axis by axis, the
/// remaining position divided by the axis' stride, the remainder carried on.
pub open spec fn unravel(k: int, s: Seq<usize>) -> Seq<int>
    decreases s.len(),
{
    if s.len() == 0 {
        seq![]
    } else {
        let p = stride(s, 0) as int;
        seq![k / p] + unravel(k % p, tail_from(s, 1))
    }
}

/// `m` names an element of a tensor of shape `s`.
pub open spec fn in_bounds(m: Seq<int>, s: Seq<usize>) -> bool {
    &&& m.len() == s.len()
    &&& forall|a: int| 0 <= a < s.len() ==> 0 <= #[trigger] m[a] < s[a] as int
}

/// The values of a `usize` sequence as integers.
pub open spec fn ints(v: Seq<usize>) -> Seq<int> {
    v.map_values(|x: usize| x as int)
}

pub proof fn lemma_tail_tail(s: Seq<usize>, i: int)
    requires
        0 <= i < s.len(),
    ensures
        tail_from(tail_from(s, i), 1) == tail_from(s, i + 1),
        tail_from(s, i)[0] == s[i],
        product(tail_from(s, i)) == (s[i] as nat) * product(tail_from(s, i + 1)),
{
    assert(tail_from(tail_from(s, i), 1) =~= tail_from(s, i + 1));
}

pub proof fn lemma_unravel_len(k: int, s: Seq<usize>)
    ensures
        unravel(k, s).len() == s.len(),
    decreases s.len(),
{
    if s.len() > 0 {
        lemma_unravel_len(k % (stride(s, 0) as int), tail_from(s, 1));
    }
}

/// Every flat position below the element count unravels to a multi-index
/// within the shape.
pub proof fn lemma_unravel_in_bounds(k: int, s: Seq<usize>)
    requires
        0 <= k < product(s),
    ensures
        in_bounds(unravel(k, s), s),
    decreases s.len(),
{
    lemma_unravel_len(k, s);
    if s.len() > 0 {
        let p = stride(s, 0) as int;
        let d = s[0] as int;
        assert(product(s) == d * p);
        assert(p > 0 && k / p < d) by (nonlinear_arith)
            requires
                0 <= k < d * p,
                p >= 0,
                d >= 0,
        ;
        assert(0 <= k % p < p && k / p >= 0) by (nonlinear_arith)
            requires
                p > 0,
                k >= 0,
        ;
        let t = tail_from(s, 1);
        lemma_unravel_in_bounds(k % p, t);
        let u = unravel(k, s);
        assert(u == seq![k / p] + unravel(k % p, t));
        assert forall|a: int| 0 <= a < s.len() implies 0 <= #[trigger] u[a] < s[a] as int by {
            if a > 0 {
                assert(u[a] == unravel(k % p, t)[a - 1]);
                assert(t[a - 1] == s[a]);
            }
        }
    }
}

/// Round trip: unravelling a flat position and ravelling the result gives the
/// position back.
pub proof fn lemma_ravel_unravel(k: int, s: Seq<usize>)
    requires
        0 <= k < product(s),
    ensures
        ravel(unravel(k, s), s) == k,
    decreases s.len(),
{
    if s.len() > 0 {
        let p = stride(s, 0) as int;
        let d = s[0] as int;
        assert(product(s) == d * p);
        assert(p > 0) by (nonlinear_arith)
            requires
                0 <= k < d * p,
                p >= 0,
                d >= 0,
        ;
        assert(0 <= k % p < p && (k / p) * p + k % p == k) by (nonlinear_arith)
            requires
                p > 0,
                k >= 0,
        ;
        let t = tail_from(s, 1);
        let u = unravel(k, s);
        lemma_ravel_unravel(k % p, t);
        assert(u.subrange(1, u.len() as int) =~= unravel(k % p, t));
        assert(u[0] == k / p);
    }
}

/// A multi-index within the shape ravels to a flat position below the element
/// count.
pub proof fn lemma_ravel_in_bounds(m: Seq<int>, s: Seq<usize>)
    requires
        in_bounds(m, s),
    ensures
        0 <= ravel(m, s) < product(s),
    decreases s.len(),
{
    if s.len() > 0 {
        let t = tail_from(s, 1);
        let mt = m.subrange(1, m.len() as int);
        assert(in_bounds(mt, t)) by {
            assert forall|a: int| 0 <= a < t.len() implies 0 <= #[trigger] mt[a] < t[a] as int by {
                assert(mt[a] == m[a + 1]);
                assert(t[a] == s[a + 1]);
            }
        }
        lemma_ravel_in_bounds(mt, t);
        let p = stride(s, 0) as int;
        let d = s[0] as int;
        let r = ravel(mt, t);
        let m0 = m[0];
        assert(0 <= m0 * p + r < d * p) by (nonlinear_arith)
            requires
                0 <= m0 < d,
                0 <= r < p,
        ;
    }
}

/// Round trip: ravelling a multi-index within the shape and unravelling the
/// result gives the multi-index back.
pub proof fn lemma_unravel_ravel(m: Seq<int>, s: Seq<usize>)
    requires
        in_bounds(m, s),
    ensures
        unravel(ravel(m, s), s) == m,
    decreases s.len(),
{
    if s.len() > 0 {
        let t = tail_from(s, 1);
        let mt = m.subrange(1, m.len() as int);
        assert(in_bounds(mt, t)) by {
            assert forall|a: int| 0 <= a < t.len() implies 0 <= #[trigger] mt[a] < t[a] as int by {
                assert(mt[a] == m[a + 1]);
                assert(t[a] == s[a + 1]);
            }
        }
        lemma_ravel_in_bounds(mt, t);
        lemma_unravel_ravel(mt, t);
        let p = stride(s, 0) as int;
        let r = ravel(mt, t);
        let m0 = m[0];
        assert((m0 * p + r) / p == m0 && (m0 * p + r) % p == r) by (nonlinear_arith)
            requires
                0 <= m0,
                0 <= r < p,
        ;
        assert(unravel(ravel(m, s), s) =~= m);
    }
}

/// A one-axis shape holds as many elements as its single dimension.
pub proof fn lemma_product_single(x: usize)
    ensures
        product(seq![x]) == x,
{
    let e = Seq::<usize>::empty();
    assert(seq![x].subrange(1, 1) =~= e);
    assert(product(e) == 1);
    assert(product(seq![x]) == (x as nat) * product(e));
}

/// `m` with the entries at `a` and `b` exchanged.
pub open spec fn swap_entries<A>(m: Seq<A>, a: int, b: int) -> Seq<A> {
    m.update(a, m[b]).update(b, m[a])
}

/// Exchanging two dimensions keeps the element count.
pub proof fn lemma_product_swap(s: Seq<usize>, a: int, b: int)
    requires
        0 <= a < b < s.len(),
    ensures
        product(swap_entries(s, a, b)) == product(s),
{
    let n = s.len() as int;
    let pa = s.subrange(0, a);
    let pm = s.subrange(a + 1, b);
    let pr = s.subrange(b + 1, n);
    let x = seq![s[a]];
    let y = seq![s[b]];
    assert(s =~= pa + (x + (pm + (y + pr))));
    assert(swap_entries(s, a, b) =~= pa + (y + (pm + (x + pr))));
    lemma_product_concat(y, pr);
    lemma_product_concat(x, pr);
    lemma_product_concat(pm, y + pr);
    lemma_product_concat(pm, x + pr);
    lemma_product_concat(x, pm + (y + pr));
    lemma_product_concat(y, pm + (x + pr));
    lemma_product_concat(pa, x + (pm + (y + pr)));
    lemma_product_concat(pa, y + (pm + (x + pr)));
    lemma_product_single(s[a]);
    lemma_product_single(s[b]);
    let ia = product(pa) as int;
    let im = product(pm) as int;
    let ir = product(pr) as int;
    let vx = s[a] as int;
    let vy = s[b] as int;
    assert(ia * (vx * (im * (vy * ir))) == ia * (vy * (im * (vx * ir)))) by (nonlinear_arith);
}

/// A dimension of zero makes the element count zero.
pub proof fn lemma_product_zero(s: Seq<usize>, k: int)
    requires
        0 <= k < s.len(),
        s[k] == 0,
    ensures
        product(s) == 0,
    decreases s.len(),
{
    if k > 0 {
        assert(tail_from(s, 1)[k - 1] == s[k]);
        lemma_product_zero(tail_from(s, 1), k - 1);
    }
    let x = s[0] as int;
    let pt = product(tail_from(s, 1)) as int;
    assert(product(s) == x * pt);
    assert(x * pt == 0) by (nonlinear_arith)
        requires
            x == 0 || pt == 0,
    ;
}

/// When the dimensions before axis `i` are all nonzero, the product of the
/// part from axis `i` on is at most the whole product.
pub proof fn lemma_tail_le(s: Seq<usize>, i: int)
    requires
        0 <= i <= s.len(),
        forall|k: int| 0 <= k < i ==> s[k] >= 1,
    ensures
        product(tail_from(s, i)) <= product(s),
    decreases i,
{
    if i == 0 {
        assert(tail_from(s, 0) =~= s);
    } else {
        lemma_tail_le(s, i - 1);
        lemma_tail_tail(s, i - 1);
        let d = s[i - 1] as int;
        let p = product(tail_from(s, i)) as int;
        assert(p <= d * p) by (nonlinear_arith)
            requires
                d >= 1,
                p >= 0,
        ;
    }
}

/// A shape with a nonzero element count that fits in `usize` is addressable.
pub proof fn lemma_positive_addressable(s: Seq<usize>)
    requires
        0 < product(s) <= usize::MAX,
    ensures
        addressable(s),
{
    assert forall|k: int| 0 <= k < s.len() implies s[k] >= 1 by {
        if s[k] == 0 {
            lemma_product_zero(s, k);
        }
    }
    assert forall|i: int| 0 <= i <= s.len() implies #[trigger] product(tail_from(s, i))
        <= usize::MAX by {
        lemma_tail_le(s, i);
    }
}

/// The element count of two shapes placed one after the other.
pub proof fn lemma_product_concat(a: Seq<usize>, b: Seq<usize>)
    ensures
        product(a + b) == product(a) * product(b),
    decreases a.len(),
{
    if a.len() > 0 {
        let t = tail_from(a, 1);
        lemma_product_concat(t, b);
        assert((a + b).subrange(1, (a + b).len() as int) =~= t + b);
        assert((a + b)[0] == a[0]);
        let x = a[0] as int;
        let pt = product(t) as int;
        let pb = product(b) as int;
        assert(product(a + b) == x * product(t + b));
        assert(product(a) == x * pt);
        assert(x * (pt * pb) == (x * pt) * pb) by (nonlinear_arith);
        assert(product(t + b) == pt * pb);
        assert(product(a + b) == (x * pt) * pb);
    } else {
        assert(a + b =~= b);
        assert(product(a) == 1);
        let pb = product(b) as int;
        assert(1 * pb == pb);
    }
}

/// A shape whose dimensions are each at most those of another has at most its
/// element count.
pub proof fn lemma_product_le(a: Seq<usize>, b: Seq<usize>)
    requires
        a.len() == b.len(),
        forall|k: int| 0 <= k < a.len() ==> a[k] <= b[k],
    ensures
        product(a) <= product(b),
    decreases a.len(),
{
    if a.len() > 0 {
        lemma_product_le(tail_from(a, 1), tail_from(b, 1));
        let x = a[0] as int;
        let y = b[0] as int;
        let pa = product(tail_from(a, 1)) as int;
        let pb = product(tail_from(b, 1)) as int;
        assert(x * pa <= y * pb) by (nonlinear_arith)
            requires
                0 <= x <= y,
                0 <= pa <= pb,
        ;
    }
}

/// The part of a multi-index from axis `i` on lies within the matching part of
/// the shape.
pub proof fn lemma_in_bounds_tail(m: Seq<int>, s: Seq<usize>, i: int)
    requires
        in_bounds(m, s),
        0 <= i <= s.len(),
    ensures
        in_bounds(m.subrange(i, m.len() as int), tail_from(s, i)),
{
    let mt = m.subrange(i, m.len() as int);
    let t = tail_from(s, i);
    assert forall|a: int| 0 <= a < t.len() implies 0 <= #[trigger] mt[a] < t[a] as int by {
        assert(mt[a] == m[a + i]);
        assert(t[a] == s[a + i]);
    }
}

/// The multi-index of flat position `k` in `shape`, given the shape's strides.
pub fn unravel_with(k: usize, shape: &[usize], st: &[usize]) -> (r: Vec<usize>)
    requires
        k < product(shape@),
        st@.len() == shape@.len(),
        forall|i: int| 0 <= i < shape@.len() ==> st@[i] as nat == #[trigger] stride(shape@, i),
    ensures
        ints(r@) == unravel(k as int, shape@),
{
    let n = shape.len();
    let mut ii: Vec<usize> = Vec::new();
    let mut c: usize = k;
    let mut i: usize = 0;
    assert(tail_from(shape@, 0) =~= shape@);
    assert(ints(ii@) + unravel(c as int, tail_from(shape@, 0)) =~= unravel(k as int, shape@));
    while i < n
        invariant
            i <= n == shape@.len() == st@.len(),
            ii@.len() == i,
            c < product(tail_from(shape@, i as int)),
            forall|j: int| 0 <= j < shape@.len() ==> st@[j] as nat == #[trigger] stride(shape@, j),
            ints(ii@) + unravel(c as int, tail_from(shape@, i as int)) == unravel(k as int, shape@),
        decreases n - i,
    {
        proof {
            lemma_tail_tail(shape@, i as int);
        }
        let p = st[i];
        assert(p as nat == stride(shape@, i as int));
        assert(p > 0) by (nonlinear_arith)
            requires
                c < (shape@[i as int] as nat) * (p as nat),
        ;
        let ghost t = tail_from(shape@, i as int);
        assert(stride(t, 0) == p);
        let q = c / p;
        let rem = c % p;
        assert(unravel(c as int, t) == seq![q as int] + unravel(rem as int, tail_from(shape@, i + 1)));
        assert(ints(ii@.push(q)) + unravel(rem as int, tail_from(shape@, i + 1)) =~= ints(ii@) + (
        seq![q as int] + unravel(rem as int, tail_from(shape@, i + 1))));
        ii.push(q);
        c = rem;
        i = i + 1;
    }
    assert(tail_from(shape@, n as int) =~= seq![]);
    assert(ints(ii@) + unravel(c as int, tail_from(shape@, n as int)) =~= ints(ii@));
    ii
}

/// The flat position of the multi-index `m` in `shape`, given the shape's
/// strides.
pub fn ravel_with(m: &[usize], shape: &[usize], st: &[usize]) -> (r: usize)
    requires
        in_bounds(ints(m@), shape@),
        product(shape@) <= usize::MAX,
        st@.len() == shape@.len(),
        forall|i: int| 0 <= i < shape@.len() ==> st@[i] as nat == #[trigger] stride(shape@, i),
    ensures
        r as int == ravel(ints(m@), shape@),
{
    let n = shape.len();
    let ghost ms = ints(m@);
    let mut idx: usize = 0;
    let mut i: usize = 0;
    assert(tail_from(shape@, 0) =~= shape@);
    assert(ms.subrange(0, n as int) =~= ms);
    proof {
        lemma_ravel_in_bounds(ms, shape@);
    }
    while i < n
        invariant
            i <= n == shape@.len() == st@.len() == m@.len(),
            ms == ints(m@),
            in_bounds(ms, shape@),
            ravel(ms, shape@) < product(shape@) <= usize::MAX,
            forall|j: int| 0 <= j < shape@.len() ==> st@[j] as nat == #[trigger] stride(shape@, j),
            idx + ravel(ms.subrange(i as int, n as int), tail_from(shape@, i as int)) == ravel(
                ms,
                shape@,
            ),
        decreases n - i,
    {
        proof {
            lemma_tail_tail(shape@, i as int);
            lemma_in_bounds_tail(ms, shape@, i + 1);
            lemma_ravel_in_bounds(
                ms.subrange(i + 1, n as int),
                tail_from(shape@, i + 1),
            );
            assert(ms.subrange(i as int, n as int).subrange(1, n - i) =~= ms.subrange(
                i + 1,
                n as int,
            ));
            assert(ms.subrange(i as int, n as int)[0] == m@[i as int] as int);
            assert(st@[i as int] as nat == stride(shape@, i as int));
            assert(stride(tail_from(shape@, i as int), 0) == st@[i as int]);
            assert(ravel(ms.subrange(i as int, n as int), tail_from(shape@, i as int)) == (
            m@[i as int] as int) * (st@[i as int] as int) + ravel(
                ms.subrange(i + 1, n as int),
                tail_from(shape@, i + 1),
            ));
        }
        let t = m[i] * st[i];
        idx = idx + t;
        i = i + 1;
    }
    idx
}

/// Changing one entry of a multi-index moves its flat position by the change
/// times that axis' stride.
pub proof fn lemma_ravel_update(m: Seq<int>, s: Seq<usize>, a: int, v: int)
    requires
        m.len() == s.len(),
        0 <= a < s.len(),
    ensures
        ravel(m.update(a, v), s) == ravel(m, s) + (v - m[a]) * stride(s, a),
    decreases s.len(),
{
    let mu = m.update(a, v);
    let t = tail_from(s, 1);
    let p0 = stride(s, 0) as int;
    if a == 0 {
        assert(mu.subrange(1, mu.len() as int) =~= m.subrange(1, m.len() as int));
        let x = m[0];
        assert(v * p0 == x * p0 + (v - x) * p0) by (nonlinear_arith);
    } else {
        let mt = m.subrange(1, m.len() as int);
        assert(mu.subrange(1, mu.len() as int) =~= mt.update(a - 1, v));
        lemma_ravel_update(mt, t, a - 1, v);
        assert(tail_from(t, a) =~= tail_from(s, a + 1));
        assert(stride(t, a - 1) == stride(s, a));
    }
}

/// The element count of `shape` when it fits in `usize`, and `None` otherwise.
pub fn checked_product(shape: &[usize]) -> (r: Option<usize>)
    ensures
        r == (if product(shape@) <= usize::MAX {
            Some(product(shape@) as usize)
        } else {
            None::<usize>
        }),
{
    let n = shape.len();
    let mut z: usize = 0;
    while z < n
        invariant
            z <= n == shape@.len(),
            forall|k: int| 0 <= k < z ==> shape@[k] >= 1,
        decreases n - z,
    {
        if shape[z] == 0 {
            proof {
                lemma_product_zero(shape@, z as int);
            }
            return Some(0);
        }
        z = z + 1;
    }
    let mut acc: usize = 1;
    let mut i: usize = n;
    assert(tail_from(shape@, n as int) =~= seq![]);
    while i > 0
        invariant
            i <= n == shape@.len(),
            forall|k: int| 0 <= k < n ==> shape@[k] >= 1,
            acc == product(tail_from(shape@, i as int)),
        decreases i,
    {
        proof {
            lemma_tail_tail(shape@, i - 1);
        }
        match shape[i - 1].checked_mul(acc) {
            Some(v) => {
                acc = v;
            },
            None => {
                proof {
                    lemma_tail_le(shape@, i - 1);
                }
                return None;
            },
        }
        i = i - 1;
    }
    assert(tail_from(shape@, 0) =~= shape@);
    Some(acc)
}

/// The element count of `shape`.
pub fn shape_product(shape: &[usize]) -> (r: usize)
    requires
        product(shape@) <= usize::MAX,
    ensures
        r == product(shape@),
{
    match checked_product(shape) {
        Some(v) => v,
        None => 0,
    }
}

/// The row-major strides of `shape`: the last is 1 and each earlier one is the
/// next stride times the next dimension.
pub fn strides_of(shape: &[usize]) -> (r: Vec<usize>)
    requires
        addressable(shape@),
    ensures
        r@.len() == shape@.len(),
        forall|i: int| 0 <= i < shape@.len() ==> r@[i] as nat == #[trigger] stride(shape@, i),
{
    let n = shape.len();
    let mut ss: Vec<usize> = Vec::new();
    let mut j: usize = 0;
    while j < n
        invariant
            j <= n == shape@.len(),
            ss@.len() == j,
            forall|k: int| 0 <= k < j ==> ss@[k] == 1,
        decreases n - j,
    {
        ss.push(1);
        j = j + 1;
    }
    if n == 0 {
        return ss;
    }
    assert(tail_from(shape@, n as int) =~= seq![]);
    assert(stride(shape@, n - 1) == 1);
    let mut i: usize = n - 1;
    while i > 0
        invariant
            0 <= i < n == shape@.len(),
            ss@.len() == n,
            addressable(shape@),
            forall|k: int| i <= k < n ==> ss@[k] as nat == #[trigger] stride(shape@, k),
        decreases i,
    {
        proof {
            lemma_tail_tail(shape@, i as int);
            assert(product(tail_from(shape@, i as int)) <= usize::MAX);
            assert(ss@[i as int] as nat == stride(shape@, i as int));
            assert(stride(shape@, i - 1) == product(tail_from(shape@, i as int)));
        }
        let v = shape[i] * ss[i];
        ss.set(i - 1, v);
        i = i - 1;
    }
    ss
}

/// An owned copy of a shape.
pub fn copy_shape(s: &[usize]) -> (r: Vec<usize>)
    ensures
        r@ == s@,
{
    let mut r: Vec<usize> = Vec::new();
    let mut i: usize = 0;
    while i < s.len()
        invariant
            i <= s@.len(),
            r@ == s@.take(i as int),
        decreases s@.len() - i,
    {
        r.push(s[i]);
        i = i + 1;
        assert(r@ =~= s@.take(i as int));
    }
    assert(s@.take(i as int) =~= s@);
    r
}

} // verus!
