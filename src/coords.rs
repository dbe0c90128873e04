//! Row-major conversion between flat indices and N-dimensional coordinates.
use vstd::arithmetic::div_mod::{lemma_div_multiples_vanish, lemma_fundamental_div_mod,
    lemma_fundamental_div_mod_converse};
use vstd::prelude::*;

verus! {

/// Widens a sequence of machine integers to mathematical integers.
pub open spec fn ints(s: Seq<usize>) -> Seq<int> {
    s.map_values(|x: usize| x as int)
}

/// Widening commutes with appending.
pub proof fn lemma_ints_push(s: Seq<usize>, x: usize)
    ensures
        ints(s.push(x)) == ints(s).push(x as int),
{
    assert(ints(s.push(x)) =~= ints(s).push(x as int));
}

/// Widening keeps the length and every element.
pub proof fn lemma_ints(s: Seq<usize>)
    ensures
        ints(s).len() == s.len(),
        forall|i: int| 0 <= i < s.len() ==> #[trigger] ints(s)[i] == s[i] as int,
{
}

/// Product of all extents; the empty product is 1.
pub open spec fn product(sizes: Seq<int>) -> int
    decreases sizes.len(),
{
    if sizes.len() == 0 {
        1
    } else {
        sizes[0] * product(sizes.skip(1))
    }
}

/// Row-major linear index: `sum over d of coords[d] * product(sizes[d+1..])`.
pub open spec fn flatten(sizes: Seq<int>, coords: Seq<int>) -> int
    decreases sizes.len(),
{
    if sizes.len() == 0 {
        0
    } else {
        coords[0] * product(sizes.skip(1)) + flatten(sizes.skip(1), coords.skip(1))
    }
}

/// Coordinates of a linear index, most significant axis first.
pub open spec fn unflatten(sizes: Seq<int>, index: int) -> Seq<int>
    decreases sizes.len(),
{
    if sizes.len() == 0 {
        seq![]
    } else {
        let stride = product(sizes.skip(1));
        seq![index / stride] + unflatten(sizes.skip(1), index % stride)
    }
}

/// Every extent is non-negative.
pub open spec fn extents(sizes: Seq<int>) -> bool {
    forall|i: int| 0 <= i < sizes.len() ==> sizes[i] >= 0
}

/// `coords` names a cell of the grid with extents `sizes`.
pub open spec fn within(sizes: Seq<int>, coords: Seq<int>) -> bool {
    &&& coords.len() == sizes.len()
    &&& forall|i: int| 0 <= i < sizes.len() ==> 0 <= #[trigger] coords[i] < sizes[i]
}

pub proof fn lemma_product_nonneg(sizes: Seq<int>)
    requires
        extents(sizes),
    ensures
        product(sizes) >= 0,
    decreases sizes.len(),
{
    if sizes.len() > 0 {
        lemma_product_nonneg(sizes.skip(1));
        vstd::arithmetic::mul::lemma_mul_nonnegative(sizes[0], product(sizes.skip(1)));
    }
}

/// A suffix of extents that are all at least one has no larger product.
pub proof fn lemma_product_suffix(sizes: Seq<int>, d: int)
    requires
        0 <= d <= sizes.len(),
        forall|i: int| 0 <= i < sizes.len() ==> sizes[i] >= 1,
    ensures
        1 <= product(sizes.skip(d)) <= product(sizes),
    decreases d,
{
    if d == 0 {
        assert(sizes.skip(0) =~= sizes);
        lemma_product_at_least_one(sizes);
    } else {
        lemma_product_suffix(sizes, d - 1);
        let s = sizes.skip(d - 1);
        assert(s.skip(1) =~= sizes.skip(d));
        lemma_product_at_least_one(sizes.skip(d));
        let p = product(sizes.skip(d));
        assert(s[0] * p >= p) by (nonlinear_arith)
            requires
                s[0] >= 1,
                p >= 1,
        ;
    }
}

/// Extents that are all at least one have a product of at least one.
pub proof fn lemma_product_at_least_one(sizes: Seq<int>)
    requires
        forall|i: int| 0 <= i < sizes.len() ==> sizes[i] >= 1,
    ensures
        product(sizes) >= 1,
    decreases sizes.len(),
{
    if sizes.len() > 0 {
        lemma_product_at_least_one(sizes.skip(1));
        let p = product(sizes.skip(1));
        assert(sizes[0] * p >= 1) by (nonlinear_arith)
            requires
                sizes[0] >= 1,
                p >= 1,
        ;
    }
}

proof fn lemma_within_skip(sizes: Seq<int>, coords: Seq<int>, d: int)
    requires
        within(sizes, coords),
        0 <= d <= sizes.len(),
    ensures
        within(sizes.skip(d), coords.skip(d)),
{
    assert forall|i: int| 0 <= i < sizes.skip(d).len() implies 0 <= #[trigger] coords.skip(d)[i]
        < sizes.skip(d)[i] by {
        assert(coords.skip(d)[i] == coords[i + d]);
    }
}

/// One step of accumulating the product of a suffix of extents.
pub proof fn lemma_stride_step(sizes: Seq<int>, d: int, stride: int)
    requires
        0 <= d < sizes.len(),
        forall|i: int| 0 <= i < sizes.len() ==> sizes[i] >= 1,
        stride == product(sizes.skip(d + 1)),
    ensures
        stride * sizes[d] == product(sizes.skip(d)),
        product(sizes.skip(d)) <= product(sizes),
{
    let sd = sizes.skip(d);
    assert(sd.skip(1) =~= sizes.skip(d + 1));
    assert(product(sd) == sd[0] * product(sd.skip(1)));
    lemma_product_suffix(sizes, d);
    vstd::arithmetic::mul::lemma_mul_is_commutative(stride, sizes[d]);
}

/// Decoding gives one coordinate per axis.
pub proof fn lemma_unflatten_len(sizes: Seq<int>, index: int)
    ensures
        unflatten(sizes, index).len() == sizes.len(),
    decreases sizes.len(),
{
    if sizes.len() > 0 {
        lemma_unflatten_len(sizes.skip(1), index % product(sizes.skip(1)));
    }
}

/// A cell of the grid has a linear index in `[0, product(sizes))`.
pub proof fn lemma_flatten_bounds(sizes: Seq<int>, coords: Seq<int>)
    requires
        within(sizes, coords),
    ensures
        0 <= flatten(sizes, coords) < product(sizes),
    decreases sizes.len(),
{
    if sizes.len() > 0 {
        let rest = sizes.skip(1);
        let c = coords.skip(1);
        lemma_within_skip(sizes, coords, 1);
        lemma_flatten_bounds(rest, c);
        let p = product(rest);
        let f = flatten(rest, c);
        let c0 = coords[0];
        let s0 = sizes[0];
        assert(0 <= c0 * p + f < s0 * p) by (nonlinear_arith)
            requires
                0 <= c0 < s0,
                0 <= f < p,
        ;
    }
}

/// Decoding the linear index of a cell gives back that cell.
pub proof fn lemma_unflatten_flatten(sizes: Seq<int>, coords: Seq<int>)
    requires
        within(sizes, coords),
    ensures
        unflatten(sizes, flatten(sizes, coords)) == coords,
    decreases sizes.len(),
{
    if sizes.len() > 0 {
        let rest = sizes.skip(1);
        let c = coords.skip(1);
        lemma_within_skip(sizes, coords, 1);
        lemma_flatten_bounds(rest, c);
        lemma_unflatten_flatten(rest, c);
        let p = product(rest);
        let f = flatten(rest, c);
        let x = coords[0] * p + f;
        lemma_fundamental_div_mod_converse(x, p, coords[0], f);
        assert(unflatten(sizes, x) =~= coords);
    }
}

/// Linear indices in range decode to cells of the grid, and encode back to themselves.
pub proof fn lemma_flatten_unflatten(sizes: Seq<int>, index: int)
    requires
        extents(sizes),
        0 <= index < product(sizes),
    ensures
        within(sizes, unflatten(sizes, index)),
        flatten(sizes, unflatten(sizes, index)) == index,
    decreases sizes.len(),
{
    if sizes.len() > 0 {
        let rest = sizes.skip(1);
        assert(extents(rest)) by {
            assert forall|i: int| 0 <= i < rest.len() implies #[trigger] rest[i] >= 0 by {
                assert(rest[i] == sizes[i + 1]);
            }
        }
        lemma_product_nonneg(rest);
        let p = product(rest);
        let s0 = sizes[0];
        assert(p > 0) by (nonlinear_arith)
            requires
                s0 >= 0,
                p >= 0,
                0 <= index < s0 * p,
        ;
        lemma_fundamental_div_mod(index, p);
        let q = index / p;
        let r = index % p;
        assert(0 <= q < s0) by (nonlinear_arith)
            requires
                p > 0,
                0 <= r < p,
                index == p * q + r,
                0 <= index < s0 * p,
        ;
        lemma_flatten_unflatten(rest, r);
        let u = unflatten(sizes, index);
        assert(u.skip(1) =~= unflatten(rest, r));
        assert(u[0] == q);
        assert forall|i: int| 0 <= i < sizes.len() implies 0 <= #[trigger] u[i] < sizes[i] by {
            if i > 0 {
                assert(u[i] == u.skip(1)[i - 1]);
                assert(sizes[i] == rest[i - 1]);
            }
        }
        assert(q * p == p * q) by (nonlinear_arith);
    }
}

/// Elementwise larger non-negative extents have a larger product.
pub proof fn lemma_product_le(a: Seq<int>, b: Seq<int>)
    requires
        a.len() == b.len(),
        forall|i: int| 0 <= i < a.len() ==> 0 <= #[trigger] a[i] <= b[i],
    ensures
        0 <= product(a) <= product(b),
    decreases a.len(),
{
    if a.len() > 0 {
        let a1 = a.skip(1);
        let b1 = b.skip(1);
        assert forall|i: int| 0 <= i < a1.len() implies 0 <= #[trigger] a1[i] <= b1[i] by {
            assert(a1[i] == a[i + 1] && b1[i] == b[i + 1]);
        }
        lemma_product_le(a1, b1);
        let (x, y, p, q) = (a[0], b[0], product(a1), product(b1));
        assert(0 <= x * p <= y * q) by (nonlinear_arith)
            requires
                0 <= x <= y,
                0 <= p <= q,
        ;
    }
}

/// Number of cells of a grid with extents `sizes`.
pub fn extent_product(sizes: &[usize]) -> (r: usize)
    requires
        forall|i: int| 0 <= i < sizes@.len() ==> sizes@[i] >= 1,
        product(ints(sizes@)) <= usize::MAX,
    ensures
        r == product(ints(sizes@)),
{
    let ghost s = ints(sizes@);
    assert forall|i: int| 0 <= i < s.len() implies #[trigger] s[i] >= 1 by {}
    let n = sizes.len();
    let mut r: usize = 1;
    let mut d: usize = n;
    proof {
        assert(s.skip(n as int) =~= seq![]);
    }
    while d > 0
        invariant
            d <= n == sizes@.len(),
            s == ints(sizes@),
            product(s) <= usize::MAX,
            forall|i: int| 0 <= i < s.len() ==> s[i] >= 1,
            r == product(s.skip(d as int)),
        decreases d,
    {
        d = d - 1;
        proof {
            lemma_stride_step(s, d as int, r as int);
        }
        r = r * sizes[d];
    }
    proof {
        assert(s.skip(0) =~= s);
    }
    r
}

/// The products of the extents after each axis: the weights of the
/// row-major formula.
pub open spec fn strides_fit(sizes: Seq<int>) -> bool {
    forall|d: int| 1 <= d <= sizes.len() ==> #[trigger] product(sizes.skip(d)) <= usize::MAX
}

/// The terms of the row-major formula are non-negative, so the part of it over
/// the trailing axes is no larger than the whole.
pub proof fn lemma_flatten_suffix(sizes: Seq<int>, coords: Seq<int>, d: int)
    requires
        extents(sizes),
        coords.len() == sizes.len(),
        forall|i: int| 0 <= i < coords.len() ==> #[trigger] coords[i] >= 0,
        0 <= d <= sizes.len(),
    ensures
        0 <= flatten(sizes.skip(d), coords.skip(d)) <= flatten(sizes, coords),
    decreases sizes.len(),
{
    if sizes.len() == 0 {
        assert(sizes.skip(d) =~= sizes);
    } else {
        let rest = sizes.skip(1);
        let c = coords.skip(1);
        assert(extents(rest)) by {
            assert forall|i: int| 0 <= i < rest.len() implies #[trigger] rest[i] >= 0 by {
                assert(rest[i] == sizes[i + 1]);
            }
        }
        assert forall|i: int| 0 <= i < c.len() implies #[trigger] c[i] >= 0 by {
            assert(c[i] == coords[i + 1]);
        }
        lemma_product_nonneg(rest);
        let p = product(rest);
        let c0 = coords[0];
        assert(c0 * p >= 0) by (nonlinear_arith)
            requires
                c0 >= 0,
                p >= 0,
        ;
        lemma_flatten_suffix(rest, c, 0);
        assert(rest.skip(0) =~= rest);
        assert(c.skip(0) =~= c);
        if d == 0 {
            assert(sizes.skip(0) =~= sizes);
            assert(coords.skip(0) =~= coords);
        } else {
            lemma_flatten_suffix(rest, c, d - 1);
            assert(rest.skip(d - 1) =~= sizes.skip(d));
            assert(c.skip(d - 1) =~= coords.skip(d));
        }
    }
}

/// For cells of a grid whose size fits in a `usize`, the row-major formula and
/// its weights fit too.
pub proof fn lemma_position_fits(sizes: Seq<int>, coords: Seq<int>)
    requires
        within(sizes, coords),
        product(sizes) <= usize::MAX,
    ensures
        strides_fit(sizes),
        flatten(sizes, coords) <= usize::MAX,
{
    assert forall|i: int| 0 <= i < sizes.len() implies #[trigger] sizes[i] >= 1 by {
        assert(coords[i] >= 0);
    }
    assert forall|d: int| 1 <= d <= sizes.len() implies #[trigger] product(sizes.skip(d))
        <= usize::MAX by {
        lemma_product_suffix(sizes, d);
    }
    lemma_flatten_bounds(sizes, coords);
}

/// Position in a flat row-major array of the cell `indices` of a grid with
/// extents `sizes`: `sum over d of indices[d] * product(sizes[d+1..])`. An
/// index may lie past its extent.
pub fn multi_dim_position(sizes: &[usize], indices: &[usize]) -> (pos: usize)
    requires
        indices@.len() == sizes@.len(),
        strides_fit(ints(sizes@)),
        flatten(ints(sizes@), ints(indices@)) <= usize::MAX,
    ensures
        pos == flatten(ints(sizes@), ints(indices@)),
{
    let ghost s = ints(sizes@);
    let ghost c = ints(indices@);
    let n = sizes.len();
    assert forall|i: int| 0 <= i < s.len() implies #[trigger] s[i] >= 0 by {}
    assert forall|i: int| 0 <= i < c.len() implies #[trigger] c[i] >= 0 by {}
    proof {
        assert(s.skip(n as int) =~= seq![]);
        assert(c.skip(n as int) =~= seq![]);
    }
    let mut pos: usize = 0;
    let mut stride: usize = 1;
    let mut d: usize = n;
    while d > 0
        invariant
            d <= n == sizes@.len() == indices@.len(),
            s == ints(sizes@),
            c == ints(indices@),
            extents(s),
            forall|i: int| 0 <= i < c.len() ==> #[trigger] c[i] >= 0,
            strides_fit(s),
            flatten(s, c) <= usize::MAX,
            d > 0 ==> stride == product(s.skip(d as int)),
            pos == flatten(s.skip(d as int), c.skip(d as int)),
        decreases d,
    {
        d = d - 1;
        let ghost sd = s.skip(d as int);
        let ghost cd = c.skip(d as int);
        proof {
            assert(sd.skip(1) =~= s.skip(d + 1));
            assert(cd.skip(1) =~= c.skip(d + 1));
            lemma_flatten_suffix(s, c, d as int);
        }
        pos = pos + indices[d] * stride;
        // the weight of axis 0 is never needed
        if d > 0 {
            proof {
                assert(product(sd) == sd[0] * product(sd.skip(1)));
                assert(product(s.skip(d as int)) <= usize::MAX);
                vstd::arithmetic::mul::lemma_mul_is_commutative(stride as int, sd[0]);
            }
            stride = stride * sizes[d];
        }
    }
    proof {
        assert(s.skip(0) =~= s);
        assert(c.skip(0) =~= c);
    }
    pos
}

/// Coordinates of the flat row-major position `pos` in a grid with extents
/// `sizes`, most significant axis first.
pub fn multi_dim_index(sizes: &[usize], pos: usize) -> (indices: Vec<usize>)
    requires
        forall|i: int| 1 <= i < sizes@.len() ==> sizes@[i] > 0,
        sizes@.len() > 0 ==> product(ints(sizes@).skip(1)) <= usize::MAX,
    ensures
        ints(indices@) == unflatten(ints(sizes@), pos as int),
{
    let ghost s = ints(sizes@);
    let n = sizes.len();
    let mut indices: Vec<usize> = Vec::new();
    if n == 0 {
        proof {
            assert(ints(indices@) =~= seq![]);
        }
        return indices;
    }
    // the extents that are divided by: all but the first
    let ghost t = s.skip(1);
    assert forall|i: int| 0 <= i < t.len() implies #[trigger] t[i] >= 1 by {
        assert(t[i] == s[i + 1]);
    }
    // stride of the most significant axis: the product of all other extents
    let mut stride: usize = 1;
    let mut d: usize = n;
    proof {
        assert(t.skip(n - 1) =~= seq![]);
    }
    while d > 1
        invariant
            1 <= d <= n == sizes@.len(),
            s == ints(sizes@),
            t == s.skip(1),
            product(t) <= usize::MAX,
            forall|i: int| 0 <= i < t.len() ==> #[trigger] t[i] >= 1,
            stride == product(t.skip(d - 1)),
        decreases d,
    {
        d = d - 1;
        proof {
            assert(t[d - 1] == sizes@[d as int] as int);
            lemma_stride_step(t, d - 1, stride as int);
        }
        stride = stride * sizes[d];
    }
    let mut rem: usize = pos;
    let mut k: usize = 0;
    proof {
        lemma_product_suffix(t, 0);
        assert(t.skip(0) =~= t);
        assert(s.skip(0) =~= s);
        assert(ints(indices@) =~= seq![]);
        assert(ints(indices@) + unflatten(s.skip(0), rem as int) =~= unflatten(s, pos as int));
    }
    while k < n
        invariant
            k <= n == sizes@.len(),
            s == ints(sizes@),
            t == s.skip(1),
            forall|i: int| 0 <= i < t.len() ==> #[trigger] t[i] >= 1,
            k < n ==> stride == product(s.skip(k as int + 1)) && stride >= 1,
            ints(indices@) + unflatten(s.skip(k as int), rem as int) == unflatten(s, pos as int),
        decreases n - k,
    {
        let ghost sk = s.skip(k as int);
        proof {
            assert(sk.skip(1) =~= s.skip(k + 1));
        }
        let q = rem / stride;
        let r = rem % stride;
        proof {
            assert(unflatten(sk, rem as int) == seq![q as int] + unflatten(s.skip(k + 1), r as int));
            assert(ints(indices@.push(q)) =~= ints(indices@) + seq![q as int]);
            assert(ints(indices@) + unflatten(sk, rem as int) =~= (ints(indices@) + seq![q as int])
                + unflatten(s.skip(k + 1), r as int));
        }
        indices.push(q);
        rem = r;
        if k + 1 < n {
            proof {
                let w = s.skip(k + 1);
                assert(w.skip(1) =~= s.skip(k + 2));
                assert(w =~= t.skip(k as int));
                assert(s.skip(k + 2) =~= t.skip(k + 1));
                assert(w[0] == sizes@[k + 1] as int);
                assert(w[0] == t[k as int]);
                lemma_product_suffix(t, k + 1);
                assert(product(w) == w[0] * product(w.skip(1)));
                lemma_div_multiples_vanish(product(s.skip(k + 2)), w[0]);
            }
            stride = stride / sizes[k + 1];
        }
        k = k + 1;
    }
    proof {
        assert(s.skip(n as int) =~= seq![]);
        assert(ints(indices@) + unflatten(s.skip(n as int), rem as int) =~= ints(indices@));
    }
    indices
}

} // verus!
