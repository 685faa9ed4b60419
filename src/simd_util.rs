use vstd::prelude::*;

verus! {

/// Value of lane `i` of `splat_stereo(pair)`: the left sample on even lanes,
/// the right one on odd lanes.
pub open spec fn stereo_lane<T>(pair: [T; 2], i: int) -> T {
    if i % 2 == 0 {
        pair[0]
    } else {
        pair[1]
    }
}

/// Index of the lane that holds the other channel of lane `i`'s stereo pair.
pub open spec fn partner_lane(i: int) -> int {
    if i % 2 == 0 {
        i + 1
    } else {
        i - 1
    }
}

/// A vector with every lane set to `item`.
pub fn const_splat<T: Copy, const N: usize>(item: T) -> (r: [T; N])
    ensures
        forall|i: int| 0 <= i < N ==> r@[i] == item,
{
    vstd::array::array_fill_for_copy_types(item)
}

/// Applies `f` to each lane.
pub fn map<T: Copy, U: Copy, const N: usize>(v: [T; N], f: impl Fn(T) -> U) -> (r: [U; N])
    requires
        N > 0,
        forall|i: int| 0 <= i < N ==> f.requires((v@[i],)),
    ensures
        forall|i: int| 0 <= i < N ==> f.ensures((v@[i],), #[trigger] r@[i]),
{
    let first = f(v[0]);
    let mut r: [U; N] = vstd::array::array_fill_for_copy_types(first);
    let mut i: usize = 1;
    while i < N
        invariant
            1 <= i <= N,
            forall|j: int| 0 <= j < N ==> f.requires((v@[j],)),
            f.ensures((v@[0],), r@[0]),
            forall|j: int| 0 <= j < i ==> f.ensures((v@[j],), #[trigger] r@[j]),
        decreases N - i,
    {
        r[i] = f(v[i]);
        i = i + 1;
    }
    r
}

/// A vector holding the stereo pair `pair` in every pair of lanes.
pub fn splat_stereo<T: Copy, const N: usize>(pair: [T; 2]) -> (r: [T; N])
    ensures
        forall|i: int| 0 <= i < N ==> #[trigger] r@[i] == stereo_lane(pair, i),
{
    let mut r: [T; N] = vstd::array::array_fill_for_copy_types(pair[0]);
    let mut i: usize = 1;
    while i < N
        invariant
            1 <= i <= N || i == 1,
            i % 2 == 1 || i == N,
            forall|j: int| 0 <= j < N ==> #[trigger] r@[j] == if j % 2 == 1 && j < i {
                pair[1]
            } else {
                pair[0]
            },
        decreases N - i,
    {
        r[i] = pair[1];
        i = if N - i >= 2 { i + 2 } else { N };
    }
    r
}

/// The vector with the left and right channel of every stereo pair exchanged.
pub fn swap_stereo<T: Copy, const N: usize>(v: [T; N]) -> (r: [T; N])
    requires
        N % 2 == 0,
    ensures
        forall|i: int| 0 <= i < N ==> #[trigger] r@[i] == v@[partner_lane(i)],
{
    let mut r: [T; N] = v;
    let mut i: usize = 0;
    while i < N
        invariant
            N % 2 == 0,
            i % 2 == 0,
            i <= N,
            forall|j: int| 0 <= j < N ==> #[trigger] r@[j] == if j < i {
                v@[partner_lane(j)]
            } else {
                v@[j]
            },
        decreases N - i,
    {
        r[i] = v[i + 1];
        r[i + 1] = v[i];
        i = i + 2;
    }
    r
}

/// The stereo pair at slot `index` (lanes `2 * index` and `2 * index + 1`)
/// copied to every slot, or `None` when the vector has no such slot.
pub fn splat_slot<T: Copy, const N: usize>(vector: &[T; N], index: usize) -> (r: Option<[T; N]>)
    requires
        N % 2 == 0,
    ensures
        match r {
            Some(s) => index < N / 2 && forall|i: int| 0 <= i < N ==> #[trigger] s@[i]
                == vector@[2 * index + i % 2],
            None => index >= N / 2,
        },
{
    if index < N / 2 {
        let pair: [T; 2] = [vector[2 * index], vector[2 * index + 1]];
        Some(splat_stereo(pair))
    } else {
        None
    }
}

/// Number of `d`-sized groups needed to hold `n` items (division rounded up).
pub fn enclosing_div(n: usize, d: usize) -> (r: usize)
    requires
        d > 0,
    ensures
        r == (n + d - 1) / (d as int),
{
    let q = n / d;
    let m = n % d;
    proof {
        assert(n == d * q + m && 0 <= m < d) by (nonlinear_arith)
            requires d > 0, q == n / d, m == n % d;
        assert(d >= 2 ==> q <= n / 2) by (nonlinear_arith)
            requires d > 0, q == n / d, n == d * q + m, 0 <= m;
        if m == 0 {
            assert((n + d - 1) / (d as int) == q) by (nonlinear_arith)
                requires d > 0, n == d * q, q >= 0;
        } else {
            assert((n + d - 1) / (d as int) == q + 1) by (nonlinear_arith)
                requires d > 0, n == d * q + m, 0 < m < d, q >= 0;
        }
    }
    if m == 0 { q } else { q + 1 }
}

} // verus!
