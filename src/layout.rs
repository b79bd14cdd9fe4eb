//! Index arithmetic for column-major tensors, and copies of a kernel block
//! into an output tensor whose first two axes are packed as a triangle
//! (row index not above column index, diagonal included).
use vstd::prelude::*;

verus! {

/// Column-major offset over two axes.
pub open spec fn f2(i: int, j: int, s0: int) -> int {
    i + s0 * j
}

/// Column-major offset over three axes: the first axis varies fastest.
pub open spec fn f3(i: int, j: int, k: int, s0: int, s1: int) -> int {
    i + s0 * f2(j, k, s1)
}

/// Column-major offset over four axes.
pub open spec fn f4(i: int, j: int, k: int, l: int, s0: int, s1: int, s2: int) -> int {
    i + s0 * f3(j, k, l, s1, s2)
}

/// Column-major offset over five axes.
pub open spec fn f5(i: int, j: int, k: int, l: int, m: int, s0: int, s1: int, s2: int, s3: int) -> int {
    i + s0 * f4(j, k, l, m, s1, s2, s3)
}

/// Number of pairs `(p, q)` with `p <= q < n`.
pub open spec fn tri(n: int) -> int {
    n * (n + 1) / 2
}

/// Packed offset of the pair `(i, j)`, `i <= j`, followed by one more axis.
pub open spec fn packed3(i: int, j: int, k: int, t0: int) -> int {
    i + tri(j) + t0 * k
}

/// Packed offset of the pair `(i, j)` followed by two more axes.
pub open spec fn packed4(i: int, j: int, k: int, l: int, t0: int, t1: int) -> int {
    i + tri(j) + t0 * f2(k, l, t1)
}

/// Packed offset of the pair `(i, j)` followed by three more axes.
pub open spec fn packed5(i: int, j: int, k: int, l: int, m: int, t0: int, t1: int, t2: int) -> int {
    i + tri(j) + t0 * f3(k, l, m, t1, t2)
}

/// Flat offset of a three-axis index in a column-major tensor of the given shape.
pub fn get_f_index_3d(indices: &[usize; 3], shape: &[usize; 3]) -> (r: usize)
    requires
        f2(indices[1] as int, indices[2] as int, shape[1] as int) <= usize::MAX,
        f3(indices[0] as int, indices[1] as int, indices[2] as int, shape[0] as int, shape[1] as int)
            <= usize::MAX,
    ensures
        r == f3(indices[0] as int, indices[1] as int, indices[2] as int, shape[0] as int, shape[1] as int),
{
    proof {
        lemma_mul_le_sum(shape[1] as int, indices[2] as int, indices[1] as int);
        lemma_mul_le_sum(shape[0] as int, f2(indices[1] as int, indices[2] as int, shape[1] as int), indices[0] as int);
    }
    indices[0] + shape[0] * (indices[1] + shape[1] * indices[2])
}

/// Flat offset of a four-axis index in a column-major tensor of the given shape.
pub fn get_f_index_4d(indices: &[usize; 4], shape: &[usize; 4]) -> (r: usize)
    requires
        f2(indices[2] as int, indices[3] as int, shape[2] as int) <= usize::MAX,
        f3(indices[1] as int, indices[2] as int, indices[3] as int, shape[1] as int, shape[2] as int)
            <= usize::MAX,
        f4(indices[0] as int, indices[1] as int, indices[2] as int, indices[3] as int,
            shape[0] as int, shape[1] as int, shape[2] as int) <= usize::MAX,
    ensures
        r == f4(indices[0] as int, indices[1] as int, indices[2] as int, indices[3] as int,
            shape[0] as int, shape[1] as int, shape[2] as int),
{
    proof {
        lemma_mul_le_sum(shape[2] as int, indices[3] as int, indices[2] as int);
        lemma_mul_le_sum(shape[1] as int, f2(indices[2] as int, indices[3] as int, shape[2] as int), indices[1] as int);
        lemma_mul_le_sum(shape[0] as int,
            f3(indices[1] as int, indices[2] as int, indices[3] as int, shape[1] as int, shape[2] as int),
            indices[0] as int);
    }
    indices[0] + shape[0] * (indices[1] + shape[1] * (indices[2] + shape[2] * indices[3]))
}

/// Flat offset of a five-axis index in a column-major tensor of the given shape.
pub fn get_f_index_5d(indices: &[usize; 5], shape: &[usize; 5]) -> (r: usize)
    requires
        f2(indices[3] as int, indices[4] as int, shape[3] as int) <= usize::MAX,
        f3(indices[2] as int, indices[3] as int, indices[4] as int, shape[2] as int, shape[3] as int)
            <= usize::MAX,
        f4(indices[1] as int, indices[2] as int, indices[3] as int, indices[4] as int,
            shape[1] as int, shape[2] as int, shape[3] as int) <= usize::MAX,
        f5(indices[0] as int, indices[1] as int, indices[2] as int, indices[3] as int, indices[4] as int,
            shape[0] as int, shape[1] as int, shape[2] as int, shape[3] as int) <= usize::MAX,
    ensures
        r == f5(indices[0] as int, indices[1] as int, indices[2] as int, indices[3] as int, indices[4] as int,
            shape[0] as int, shape[1] as int, shape[2] as int, shape[3] as int),
{
    proof {
        lemma_mul_le_sum(shape[3] as int, indices[4] as int, indices[3] as int);
        lemma_mul_le_sum(shape[2] as int, f2(indices[3] as int, indices[4] as int, shape[3] as int), indices[2] as int);
        lemma_mul_le_sum(shape[1] as int,
            f3(indices[2] as int, indices[3] as int, indices[4] as int, shape[2] as int, shape[3] as int),
            indices[1] as int);
        lemma_mul_le_sum(shape[0] as int,
            f4(indices[1] as int, indices[2] as int, indices[3] as int, indices[4] as int,
                shape[1] as int, shape[2] as int, shape[3] as int),
            indices[0] as int);
    }
    indices[0] + shape[0] * (indices[1] + shape[1] * (indices[2] + shape[2] * (indices[3] + shape[3] * indices[4])))
}

/// Packed offset of `(i, j, k)` where the pair `(i, j)` is stored as `i + j(j+1)/2`.
pub fn get_f_index_3d_s2ij(indices: &[usize; 3], shape: &[usize; 2]) -> (r: usize)
    requires
        indices[1] * (indices[1] + 1) <= usize::MAX,
        packed3(indices[0] as int, indices[1] as int, indices[2] as int, shape[0] as int) <= usize::MAX,
    ensures
        r == packed3(indices[0] as int, indices[1] as int, indices[2] as int, shape[0] as int),
{
    proof {
        lemma_succ_fits(indices[1] as int);
        lemma_tri_nonneg(indices[1] as int);
        lemma_mul_nonneg(shape[0] as int, indices[2] as int);
    }
    indices[0] + indices[1] * (indices[1] + 1) / 2 + shape[0] * indices[2]
}

/// Packed offset of `(i, j, k, l)` where the pair `(i, j)` is stored as `i + j(j+1)/2`.
pub fn get_f_index_4d_s2ij(indices: &[usize; 4], shape: &[usize; 3]) -> (r: usize)
    requires
        indices[1] * (indices[1] + 1) <= usize::MAX,
        f2(indices[2] as int, indices[3] as int, shape[1] as int) <= usize::MAX,
        packed4(indices[0] as int, indices[1] as int, indices[2] as int, indices[3] as int,
            shape[0] as int, shape[1] as int) <= usize::MAX,
    ensures
        r == packed4(indices[0] as int, indices[1] as int, indices[2] as int, indices[3] as int,
            shape[0] as int, shape[1] as int),
{
    proof {
        lemma_succ_fits(indices[1] as int);
        lemma_tri_nonneg(indices[1] as int);
        lemma_mul_le_sum(shape[1] as int, indices[3] as int, indices[2] as int);
        lemma_mul_nonneg(shape[0] as int, f2(indices[2] as int, indices[3] as int, shape[1] as int));
    }
    indices[0] + indices[1] * (indices[1] + 1) / 2 + shape[0] * (indices[2] + shape[1] * indices[3])
}

/// Packed offset of `(i, j, k, l, m)` where the pair `(i, j)` is stored as `i + j(j+1)/2`.
pub fn get_f_index_5d_s2ij(indices: &[usize; 5], shape: &[usize; 4]) -> (r: usize)
    requires
        indices[1] * (indices[1] + 1) <= usize::MAX,
        f2(indices[3] as int, indices[4] as int, shape[2] as int) <= usize::MAX,
        f3(indices[2] as int, indices[3] as int, indices[4] as int, shape[1] as int, shape[2] as int)
            <= usize::MAX,
        packed5(indices[0] as int, indices[1] as int, indices[2] as int, indices[3] as int, indices[4] as int,
            shape[0] as int, shape[1] as int, shape[2] as int) <= usize::MAX,
    ensures
        r == packed5(indices[0] as int, indices[1] as int, indices[2] as int, indices[3] as int, indices[4] as int,
            shape[0] as int, shape[1] as int, shape[2] as int),
{
    proof {
        lemma_succ_fits(indices[1] as int);
        lemma_tri_nonneg(indices[1] as int);
        lemma_mul_le_sum(shape[2] as int, indices[4] as int, indices[3] as int);
        lemma_mul_le_sum(shape[1] as int, f2(indices[3] as int, indices[4] as int, shape[2] as int), indices[2] as int);
        lemma_mul_nonneg(shape[0] as int,
            f3(indices[2] as int, indices[3] as int, indices[4] as int, shape[1] as int, shape[2] as int));
    }
    indices[0] + indices[1] * (indices[1] + 1) / 2
        + shape[0] * (indices[2] + shape[1] * (indices[3] + shape[2] * indices[4]))
}

// ---------------------------------------------------------------------------
// Arithmetic facts used by the copies.

proof fn lemma_mul_nonneg(a: int, b: int)
    requires
        0 <= a,
        0 <= b,
    ensures
        0 <= a * b,
{
    assert(0 <= a * b) by (nonlinear_arith)
        requires
            0 <= a,
            0 <= b,
    ;
}

/// Each partial sum of a nested offset is bounded by the whole.
proof fn lemma_mul_le_sum(s: int, x: int, a: int)
    requires
        0 <= s,
        0 <= x,
        0 <= a,
    ensures
        x <= a + s * x || s == 0,
        0 <= s * x,
        s * x <= a + s * x,
{
    assert(0 <= s * x) by (nonlinear_arith)
        requires
            0 <= s,
            0 <= x,
    ;
    assert(x <= a + s * x || s == 0) by (nonlinear_arith)
        requires
            0 <= s,
            0 <= x,
            0 <= a,
    ;
}

proof fn lemma_succ_fits(a: int)
    requires
        0 <= a,
        a * (a + 1) <= usize::MAX,
    ensures
        a + 1 <= usize::MAX,
{
    assert(a + 1 <= a * (a + 1) || a == 0) by (nonlinear_arith)
        requires
            0 <= a,
    ;
}

pub proof fn lemma_tri_nonneg(n: int)
    requires
        0 <= n,
    ensures
        0 <= tri(n),
        tri(n) <= n * (n + 1),
{
    assert(0 <= n * (n + 1)) by (nonlinear_arith)
        requires
            0 <= n,
    ;
}

/// `tri(n + 1) == tri(n) + n + 1`.
pub proof fn lemma_tri_step(n: int)
    requires
        0 <= n,
    ensures
        tri(n + 1) == tri(n) + n + 1,
{
    assert((n + 1) * (n + 2) == n * (n + 1) + 2 * (n + 1)) by (nonlinear_arith);
}

/// `tri` is monotone.
pub proof fn lemma_tri_mono(a: int, b: int)
    requires
        0 <= a <= b,
    ensures
        tri(a) <= tri(b),
    decreases b - a,
{
    if a < b {
        lemma_tri_step(b - 1);
        lemma_tri_mono(a, b - 1);
    }
}

/// A pair `(i, j)` with `i <= j < n` packs below `tri(n)`.
pub proof fn lemma_pair_bound(i: int, j: int, n: int)
    requires
        0 <= i <= j,
        j < n,
    ensures
        0 <= i + tri(j) < tri(n),
{
    lemma_tri_nonneg(j);
    lemma_tri_step(j);
    lemma_tri_mono(j + 1, n);
}

/// Every index below `tri(n)` packs some pair `(i, j)` with `i <= j < n`.
pub proof fn lemma_pair_onto(u: int, n: int) -> (r: (int, int))
    requires
        0 <= n,
        0 <= u < tri(n),
    ensures
        0 <= r.0 <= r.1 < n,
        r.0 + tri(r.1) == u,
    decreases n,
{
    if n == 0 {
        assert(tri(0) == 0);
        (0, 0)
    } else {
        lemma_tri_step(n - 1);
        lemma_tri_nonneg(n - 1);
        if u < tri(n - 1) {
            lemma_pair_onto(u, n - 1)
        } else {
            (u - tri(n - 1), n - 1)
        }
    }
}

/// The packing of pairs `(i, j)` with `i <= j` is one to one.
pub proof fn lemma_pair_injective(i1: int, j1: int, i2: int, j2: int)
    requires
        0 <= i1 <= j1,
        0 <= i2 <= j2,
        i1 + tri(j1) == i2 + tri(j2),
    ensures
        i1 == i2,
        j1 == j2,
{
    if j1 < j2 {
        lemma_pair_bound(i1, j1, j1 + 1);
        lemma_tri_mono(j1 + 1, j2);
        lemma_tri_nonneg(j2);
    } else if j2 < j1 {
        lemma_pair_bound(i2, j2, j2 + 1);
        lemma_tri_mono(j2 + 1, j1);
        lemma_tri_nonneg(j1);
    }
}

/// Dividing out a stride: `a + s*x` with `a < s` determines `a` and `x`.
pub proof fn lemma_stride_injective(a1: int, x1: int, a2: int, x2: int, s: int)
    requires
        0 <= a1 < s,
        0 <= a2 < s,
        0 <= x1,
        0 <= x2,
        a1 + s * x1 == a2 + s * x2,
    ensures
        a1 == a2,
        x1 == x2,
{
    if x1 < x2 {
        assert(s * x1 + s <= s * x2) by (nonlinear_arith)
            requires
                x1 < x2,
                0 <= s,
        ;
    } else if x2 < x1 {
        assert(s * x2 + s <= s * x1) by (nonlinear_arith)
            requires
                x2 < x1,
                0 <= s,
        ;
    }
}

/// An offset `a + s*x` with `a < s` and `x < n` stays below `s*n`.
pub proof fn lemma_stride_bound(a: int, x: int, s: int, n: int)
    requires
        0 <= a < s,
        0 <= x < n,
    ensures
        0 <= a + s * x < s * n,
{
    assert(0 <= a + s * x < s * n) by (nonlinear_arith)
        requires
            0 <= a < s,
            0 <= x < n,
    ;
}

// ---------------------------------------------------------------------------
// Copies of a three-axis block (two basis axes and the component axis).

/// `(i, j, k)` lies in a block of shape `d`; on a diagonal block only `i <= j` counts.
pub open spec fn box3(i: int, j: int, k: int, d: Seq<usize>, diag: bool) -> bool {
    &&& 0 <= i < d[0]
    &&& 0 <= j < d[1]
    &&& 0 <= k < d[2]
    &&& diag ==> i <= j
}

/// Packed position of block element `(i, j, k)` placed at offsets `o`.
pub open spec fn tgt3(i: int, j: int, k: int, o: Seq<usize>, t: Seq<usize>) -> int {
    packed3(o[0] + i, o[1] + j, o[2] + k, t[0] as int)
}

/// Position `n` of the packed output receives some element of the block.
pub open spec fn hit3(n: int, o: Seq<usize>, t: Seq<usize>, d: Seq<usize>, diag: bool) -> bool {
    exists|i: int, j: int, k: int| box3(i, j, k, d, diag) && #[trigger] tgt3(i, j, k, o, t) == n
}

/// What the packed three-axis copies need of their arguments.
pub open spec fn copy3_ok(out_len: int, o: Seq<usize>, t: Seq<usize>, buf_len: int, d: Seq<usize>, diag: bool) -> bool {
    &&& o.len() == 3 && t.len() == 2 && d.len() == 3
    &&& if diag { o[0] == o[1] && d[0] == d[1] } else { o[0] + d[0] <= o[1] + 1 }
    &&& (o[1] + d[1]) * (o[1] + d[1]) <= usize::MAX
    &&& o[0] + d[0] <= usize::MAX && o[1] + d[1] <= usize::MAX && o[2] + d[2] <= usize::MAX
    &&& tri(o[1] + d[1]) <= t[0]
    &&& t[0] * (o[2] + d[2]) <= out_len
    &&& d[0] * (d[1] * d[2]) <= buf_len
}

/// What the packed three-axis copies leave in `out`.
pub open spec fn copied3<T>(out: Seq<T>, out0: Seq<T>, o: Seq<usize>, t: Seq<usize>, buf: Seq<T>, d: Seq<usize>, diag: bool) -> bool {
    &&& out.len() == out0.len()
    &&& forall|i: int, j: int, k: int| box3(i, j, k, d, diag)
        ==> out[#[trigger] tgt3(i, j, k, o, t)] == buf[f3(i, j, k, d[0] as int, d[1] as int)]
    &&& forall|n: int| 0 <= n < out0.len() && !hit3(n, o, t, d, diag) ==> #[trigger] out[n] == out0[n]
}

/// Bounds of both positions of an element of a three-axis block.
proof fn lemma_copy3_bounds(i: int, j: int, k: int, o: Seq<usize>, t: Seq<usize>, out_len: int, buf_len: int, d: Seq<usize>, diag: bool)
    requires
        copy3_ok(out_len, o, t, buf_len, d, diag),
        box3(i, j, k, d, diag),
    ensures
        0 <= tgt3(i, j, k, o, t) < out_len,
        0 <= o[0] + i + tri(o[1] + j) < t[0],
        0 <= f2(j, k, d[1] as int) <= f3(i, j, k, d[0] as int, d[1] as int),
        0 <= f3(i, j, k, d[0] as int, d[1] as int) < buf_len,
        (o[1] + j) * (o[1] + j + 1) <= usize::MAX,
{
    lemma_pair_bound(o[0] + i, o[1] + j, o[1] + d[1]);
    lemma_stride_bound(o[0] + i + tri(o[1] + j), o[2] + k, t[0] as int, o[2] + d[2]);
    lemma_stride_bound(j, k, d[1] as int, d[2] as int);
    lemma_stride_bound(i, f2(j, k, d[1] as int), d[0] as int, d[1] * d[2]);
    lemma_mul_le_sum(d[0] as int, f2(j, k, d[1] as int), i);
    let q = o[1] + j;
    let n = o[1] + d[1];
    assert(q * (q + 1) <= n * n) by (nonlinear_arith)
        requires
            0 <= q < n,
    ;
}

/// Two elements of a three-axis block never share a packed position.
proof fn lemma_tgt3_injective(i1: int, j1: int, k1: int, i2: int, j2: int, k2: int, o: Seq<usize>, t: Seq<usize>, out_len: int, buf_len: int, d: Seq<usize>, diag: bool)
    requires
        copy3_ok(out_len, o, t, buf_len, d, diag),
        box3(i1, j1, k1, d, diag),
        box3(i2, j2, k2, d, diag),
        tgt3(i1, j1, k1, o, t) == tgt3(i2, j2, k2, o, t),
    ensures
        i1 == i2 && j1 == j2 && k1 == k2,
{
    lemma_copy3_bounds(i1, j1, k1, o, t, out_len, buf_len, d, diag);
    lemma_copy3_bounds(i2, j2, k2, o, t, out_len, buf_len, d, diag);
    lemma_stride_injective(o[0] + i1 + tri(o[1] + j1), o[2] + k1, o[0] + i2 + tri(o[1] + j2), o[2] + k2, t[0] as int);
    lemma_pair_injective(o[0] + i1, o[1] + j1, o[0] + i2, o[1] + j2);
}

/// Copies an off-diagonal block `buf` (shape `buf_shape`, column-major) into the
/// packed output `out`, element `(i, j, c)` going to the packed pair
/// `(out_offsets[0] + i, out_offsets[1] + j)` and component `out_offsets[2] + c`.
pub fn copy_3d_s2ij_offdiag<T: Copy>(out: &mut [T], out_offsets: &[usize; 3], out_s2ij_shape: &[usize; 2], buf: &[T], buf_shape: &[usize; 3])
    requires
        copy3_ok(old(out)@.len() as int, out_offsets@, out_s2ij_shape@, buf@.len() as int, buf_shape@, false),
    ensures
        copied3(final(out)@, old(out)@, out_offsets@, out_s2ij_shape@, buf@, buf_shape@, false),
{
    copy_3d_s2ij(out, out_offsets, out_s2ij_shape, buf, buf_shape, false)
}

/// Copies a diagonal block (both basis axes over the same shell) into the packed
/// output: only the elements `(i, j, c)` with `i <= j` are stored.
pub fn copy_3d_s2ij_diag<T: Copy>(out: &mut [T], out_offsets: &[usize; 3], out_s2ij_shape: &[usize; 2], buf: &[T], buf_shape: &[usize; 3])
    requires
        copy3_ok(old(out)@.len() as int, out_offsets@, out_s2ij_shape@, buf@.len() as int, buf_shape@, true),
    ensures
        copied3(final(out)@, old(out)@, out_offsets@, out_s2ij_shape@, buf@, buf_shape@, true),
{
    copy_3d_s2ij(out, out_offsets, out_s2ij_shape, buf, buf_shape, true)
}

fn copy_3d_s2ij<T: Copy>(out: &mut [T], out_offsets: &[usize; 3], out_s2ij_shape: &[usize; 2], buf: &[T], buf_shape: &[usize; 3], diag: bool)
    requires
        copy3_ok(old(out)@.len() as int, out_offsets@, out_s2ij_shape@, buf@.len() as int, buf_shape@, diag),
    ensures
        copied3(final(out)@, old(out)@, out_offsets@, out_s2ij_shape@, buf@, buf_shape@, diag),
{
    let ghost out0 = out@;
    let ghost o = out_offsets@;
    let ghost t = out_s2ij_shape@;
    let ghost d = buf_shape@;
    let out_len = out.len();
    let buf_len = buf.len();
    let mut c: usize = 0;
    while c < buf_shape[2]
        invariant
            copy3_ok(out0.len() as int, o, t, buf@.len() as int, d, diag),
            o == out_offsets@, t == out_s2ij_shape@, d == buf_shape@,
            out@.len() == out0.len(), out_len == out0.len(), buf_len == buf@.len(),
            c <= d[2],
            forall|i: int, j: int, k: int| box3(i, j, k, d, diag) && k < c
                ==> out@[#[trigger] tgt3(i, j, k, o, t)] == buf@[f3(i, j, k, d[0] as int, d[1] as int)],
            forall|n: int| 0 <= n < out0.len() && !hit3(n, o, t, d, diag) ==> #[trigger] out@[n] == out0[n],
        decreases d[2] - c,
    {
        let mut j: usize = 0;
        while j < buf_shape[1]
            invariant
                copy3_ok(out0.len() as int, o, t, buf@.len() as int, d, diag),
                o == out_offsets@, t == out_s2ij_shape@, d == buf_shape@,
                out@.len() == out0.len(), out_len == out0.len(), buf_len == buf@.len(),
                c < d[2],
                j <= d[1],
                forall|i: int, jj: int, k: int| box3(i, jj, k, d, diag) && (k < c || (k == c && jj < j))
                    ==> out@[#[trigger] tgt3(i, jj, k, o, t)] == buf@[f3(i, jj, k, d[0] as int, d[1] as int)],
                forall|n: int| 0 <= n < out0.len() && !hit3(n, o, t, d, diag) ==> #[trigger] out@[n] == out0[n],
            decreases d[1] - j,
        {
            let i_end = if diag { j + 1 } else { buf_shape[0] };
            let mut i: usize = 0;
            while i < i_end
                invariant
                    copy3_ok(out0.len() as int, o, t, buf@.len() as int, d, diag),
                    o == out_offsets@, t == out_s2ij_shape@, d == buf_shape@,
                    out@.len() == out0.len(), out_len == out0.len(), buf_len == buf@.len(),
                    c < d[2],
                    j < d[1],
                    i_end == if diag { j + 1 } else { d[0] as int },
                    i <= i_end,
                    forall|ii: int, jj: int, k: int| box3(ii, jj, k, d, diag)
                        && (k < c || (k == c && (jj < j || (jj == j && ii < i))))
                        ==> out@[#[trigger] tgt3(ii, jj, k, o, t)] == buf@[f3(ii, jj, k, d[0] as int, d[1] as int)],
                    forall|n: int| 0 <= n < out0.len() && !hit3(n, o, t, d, diag) ==> #[trigger] out@[n] == out0[n],
                decreases i_end - i,
            {
                proof {
                    lemma_copy3_bounds(i as int, j as int, c as int, o, t, out0.len() as int, buf@.len() as int, d, diag);
                }
                let out_indices = [out_offsets[0] + i, out_offsets[1] + j, out_offsets[2] + c];
                let buf_indices = [i, j, c];
                let out_index = get_f_index_3d_s2ij(&out_indices, out_s2ij_shape);
                let buf_index = get_f_index_3d(&buf_indices, buf_shape);
                let ghost before = out@;
                out[out_index] = buf[buf_index];
                proof {
                    assert(tgt3(i as int, j as int, c as int, o, t) == out_index);
                    assert(hit3(out_index as int, o, t, d, diag));
                    assert forall|ii: int, jj: int, k: int| box3(ii, jj, k, d, diag)
                        && (k < c || (k == c && (jj < j || (jj == j && ii < i + 1))))
                        implies out@[#[trigger] tgt3(ii, jj, k, o, t)] == buf@[f3(ii, jj, k, d[0] as int, d[1] as int)] by {
                        lemma_copy3_bounds(ii, jj, k, o, t, out0.len() as int, buf@.len() as int, d, diag);
                        if ii != i || jj != j || k != c {
                            if tgt3(ii, jj, k, o, t) == out_index {
                                lemma_tgt3_injective(ii, jj, k, i as int, j as int, c as int, o, t, out0.len() as int, buf@.len() as int, d, diag);
                            }
                        }
                    }
                }
                i += 1;
            }
            j += 1;
        }
        c += 1;
    }
}

// ---------------------------------------------------------------------------
// Copies of a 4-axis block.

/// `(i, j, k, l)` lies in a block of shape `d`; on a diagonal block only `i <= j` counts.
pub open spec fn box4(i: int, j: int, k: int, l: int, d: Seq<usize>, diag: bool) -> bool {
    &&& 0 <= i < d[0]
    &&& 0 <= j < d[1]
    &&& 0 <= k < d[2]
    &&& 0 <= l < d[3]
    &&& diag ==> i <= j
}

/// Packed position of block element `(i, j, k, l)` placed at offsets `o`.
pub open spec fn tgt4(i: int, j: int, k: int, l: int, o: Seq<usize>, t: Seq<usize>) -> int {
    packed4(o[0] + i, o[1] + j, o[2] + k, o[3] + l, t[0] as int, t[1] as int)
}

/// Position `n` of the packed output receives some element of the block.
pub open spec fn hit4(n: int, o: Seq<usize>, t: Seq<usize>, d: Seq<usize>, diag: bool) -> bool {
    exists|i: int, j: int, k: int, l: int| box4(i, j, k, l, d, diag) && #[trigger] tgt4(i, j, k, l, o, t) == n
}

/// What the packed 4-axis copies need of their arguments.
pub open spec fn copy4_ok(out_len: int, o: Seq<usize>, t: Seq<usize>, buf_len: int, d: Seq<usize>, diag: bool) -> bool {
    &&& o.len() == 4 && t.len() == 3 && d.len() == 4
    &&& if diag { o[0] == o[1] && d[0] == d[1] } else { o[0] + d[0] <= o[1] + 1 }
    &&& (o[1] + d[1]) * (o[1] + d[1]) <= usize::MAX
    &&& forall|a: int| 0 <= a < 4 ==> #[trigger] o[a] + d[a] <= usize::MAX
    &&& tri(o[1] + d[1]) <= t[0]
    &&& o[2] + d[2] <= t[1]
    &&& t[0] * (t[1] * ((o[3] + d[3]))) <= out_len
    &&& d[0] * (d[1] * (d[2] * (d[3]))) <= buf_len
}

/// What the packed 4-axis copies leave in `out`.
pub open spec fn copied4<T>(out: Seq<T>, out0: Seq<T>, o: Seq<usize>, t: Seq<usize>, buf: Seq<T>, d: Seq<usize>, diag: bool) -> bool {
    &&& out.len() == out0.len()
    &&& forall|i: int, j: int, k: int, l: int| box4(i, j, k, l, d, diag)
        ==> out[#[trigger] tgt4(i, j, k, l, o, t)] == buf[f4(i, j, k, l, d[0] as int, d[1] as int, d[2] as int)]
    &&& forall|n: int| 0 <= n < out0.len() && !hit4(n, o, t, d, diag) ==> #[trigger] out[n] == out0[n]
}

/// Bounds of both positions of an element of a 4-axis block.
proof fn lemma_copy4_bounds(i: int, j: int, k: int, l: int, o: Seq<usize>, t: Seq<usize>, out_len: int, buf_len: int, d: Seq<usize>, diag: bool)
    requires
        copy4_ok(out_len, o, t, buf_len, d, diag),
        box4(i, j, k, l, d, diag),
    ensures
        0 <= tgt4(i, j, k, l, o, t) < out_len,
        0 <= o[0] + i + tri(o[1] + j) < t[0],
        0 <= f2(o[2] + k, o[3] + l, t[1] as int) <= tgt4(i, j, k, l, o, t),
        0 <= f2(k, l, d[2] as int) <= f4(i, j, k, l, d[0] as int, d[1] as int, d[2] as int),
        0 <= f3(j, k, l, d[1] as int, d[2] as int) <= f4(i, j, k, l, d[0] as int, d[1] as int, d[2] as int),
        0 <= f4(i, j, k, l, d[0] as int, d[1] as int, d[2] as int) <= f4(i, j, k, l, d[0] as int, d[1] as int, d[2] as int),
        0 <= f4(i, j, k, l, d[0] as int, d[1] as int, d[2] as int) < buf_len,
        (o[1] + j) * (o[1] + j + 1) <= usize::MAX,
{
    assert(o[0] + d[0] <= usize::MAX);
    lemma_pair_bound(o[0] + i, o[1] + j, o[1] + d[1]);
    lemma_stride_bound(o[2] + k, o[3] + l, t[1] as int, (o[3] + d[3]) as int);
    lemma_mul_le_sum(t[1] as int, o[3] + l, o[2] + k);
    lemma_stride_bound(o[0] + i + tri(o[1] + j), f2(o[2] + k, o[3] + l, t[1] as int), t[0] as int, t[1] as int * ((o[3] + d[3]) as int));
    lemma_mul_le_sum(t[0] as int, f2(o[2] + k, o[3] + l, t[1] as int), o[0] + i + tri(o[1] + j));
    lemma_stride_bound(k, l, d[2] as int, d[3] as int);
    lemma_mul_le_sum(d[2] as int, l, k);
    lemma_stride_bound(j, f2(k, l, d[2] as int), d[1] as int, d[2] as int * (d[3] as int));
    lemma_mul_le_sum(d[1] as int, f2(k, l, d[2] as int), j);
    lemma_stride_bound(i, f3(j, k, l, d[1] as int, d[2] as int), d[0] as int, d[1] as int * (d[2] as int * (d[3] as int)));
    lemma_mul_le_sum(d[0] as int, f3(j, k, l, d[1] as int, d[2] as int), i);
    let q = o[1] + j;
    let n = o[1] + d[1];
    assert(q * (q + 1) <= n * n) by (nonlinear_arith)
        requires
            0 <= q < n,
    ;
}

/// Two elements of a 4-axis block never share a packed position.
proof fn lemma_tgt4_injective(i1: int, j1: int, k1: int, l1: int, i2: int, j2: int, k2: int, l2: int, o: Seq<usize>, t: Seq<usize>, out_len: int, buf_len: int, d: Seq<usize>, diag: bool)
    requires
        copy4_ok(out_len, o, t, buf_len, d, diag),
        box4(i1, j1, k1, l1, d, diag),
        box4(i2, j2, k2, l2, d, diag),
        tgt4(i1, j1, k1, l1, o, t) == tgt4(i2, j2, k2, l2, o, t),
    ensures
        i1 == i2 && j1 == j2 && k1 == k2 && l1 == l2,
{
    lemma_copy4_bounds(i1, j1, k1, l1, o, t, out_len, buf_len, d, diag);
    lemma_copy4_bounds(i2, j2, k2, l2, o, t, out_len, buf_len, d, diag);
    lemma_stride_injective(o[0] + i1 + tri(o[1] + j1), f2(o[2] + k1, o[3] + l1, t[1] as int), o[0] + i2 + tri(o[1] + j2), f2(o[2] + k2, o[3] + l2, t[1] as int), t[0] as int);
    lemma_stride_injective(o[2] + k1, o[3] + l1, o[2] + k2, o[3] + l2, t[1] as int);
    lemma_pair_injective(o[0] + i1, o[1] + j1, o[0] + i2, o[1] + j2);
}

/// Copies an off-diagonal 4-axis block `buf` (column-major) into the packed output
/// `out`: element `(i, j, k, c)` goes to the packed pair `(out_offsets[0] + i, out_offsets[1] + j)`
/// and to `out_offsets[a]` plus its own index on each further axis `a`.
pub fn copy_4d_s2ij_offdiag<T: Copy>(out: &mut [T], out_offsets: &[usize; 4], out_s2ij_shape: &[usize; 3], buf: &[T], buf_shape: &[usize; 4])
    requires
        copy4_ok(old(out)@.len() as int, out_offsets@, out_s2ij_shape@, buf@.len() as int, buf_shape@, false),
    ensures
        copied4(final(out)@, old(out)@, out_offsets@, out_s2ij_shape@, buf@, buf_shape@, false),
{
    copy_4d_s2ij(out, out_offsets, out_s2ij_shape, buf, buf_shape, false)
}

/// Copies a diagonal 4-axis block (both basis axes over the same shell) into the
/// packed output: only the elements with `i <= j` are stored.
pub fn copy_4d_s2ij_diag<T: Copy>(out: &mut [T], out_offsets: &[usize; 4], out_s2ij_shape: &[usize; 3], buf: &[T], buf_shape: &[usize; 4])
    requires
        copy4_ok(old(out)@.len() as int, out_offsets@, out_s2ij_shape@, buf@.len() as int, buf_shape@, true),
    ensures
        copied4(final(out)@, old(out)@, out_offsets@, out_s2ij_shape@, buf@, buf_shape@, true),
{
    copy_4d_s2ij(out, out_offsets, out_s2ij_shape, buf, buf_shape, true)
}

fn copy_4d_s2ij<T: Copy>(out: &mut [T], out_offsets: &[usize; 4], out_s2ij_shape: &[usize; 3], buf: &[T], buf_shape: &[usize; 4], diag: bool)
    requires
        copy4_ok(old(out)@.len() as int, out_offsets@, out_s2ij_shape@, buf@.len() as int, buf_shape@, diag),
    ensures
        copied4(final(out)@, old(out)@, out_offsets@, out_s2ij_shape@, buf@, buf_shape@, diag),
{
    let ghost out0 = out@;
    let ghost o = out_offsets@;
    let ghost t = out_s2ij_shape@;
    let ghost d = buf_shape@;
    let out_len = out.len();
    let buf_len = buf.len();
    let mut c: usize = 0;
    while c < buf_shape[3]
        invariant
            copy4_ok(out0.len() as int, o, t, buf@.len() as int, d, diag),
            o == out_offsets@, t == out_s2ij_shape@, d == buf_shape@,
            out@.len() == out0.len(), out_len == out0.len(), buf_len == buf@.len(),
            c <= d[3],
            forall|qi: int, qj: int, qk: int, ql: int| box4(qi, qj, qk, ql, d, diag) && (ql < c)
                ==> out@[#[trigger] tgt4(qi, qj, qk, ql, o, t)] == buf@[f4(qi, qj, qk, ql, d[0] as int, d[1] as int, d[2] as int)],
            forall|n: int| 0 <= n < out0.len() && !hit4(n, o, t, d, diag) ==> #[trigger] out@[n] == out0[n],
        decreases d[3] - c,
    {
        let mut k: usize = 0;
        while k < buf_shape[2]
            invariant
                copy4_ok(out0.len() as int, o, t, buf@.len() as int, d, diag),
                o == out_offsets@, t == out_s2ij_shape@, d == buf_shape@,
                out@.len() == out0.len(), out_len == out0.len(), buf_len == buf@.len(),
                c < d[3],
                k <= d[2],
                forall|qi: int, qj: int, qk: int, ql: int| box4(qi, qj, qk, ql, d, diag) && (ql < c || (ql == c && (qk < k)))
                    ==> out@[#[trigger] tgt4(qi, qj, qk, ql, o, t)] == buf@[f4(qi, qj, qk, ql, d[0] as int, d[1] as int, d[2] as int)],
                forall|n: int| 0 <= n < out0.len() && !hit4(n, o, t, d, diag) ==> #[trigger] out@[n] == out0[n],
            decreases d[2] - k,
        {
            let mut j: usize = 0;
            while j < buf_shape[1]
                invariant
                    copy4_ok(out0.len() as int, o, t, buf@.len() as int, d, diag),
                    o == out_offsets@, t == out_s2ij_shape@, d == buf_shape@,
                    out@.len() == out0.len(), out_len == out0.len(), buf_len == buf@.len(),
                    c < d[3],
                    k < d[2],
                    j <= d[1],
                    forall|qi: int, qj: int, qk: int, ql: int| box4(qi, qj, qk, ql, d, diag) && (ql < c || (ql == c && (qk < k || (qk == k && (qj < j)))))
                        ==> out@[#[trigger] tgt4(qi, qj, qk, ql, o, t)] == buf@[f4(qi, qj, qk, ql, d[0] as int, d[1] as int, d[2] as int)],
                    forall|n: int| 0 <= n < out0.len() && !hit4(n, o, t, d, diag) ==> #[trigger] out@[n] == out0[n],
                decreases d[1] - j,
            {
                let i_end = if diag { j + 1 } else { buf_shape[0] };
                let mut i: usize = 0;
                while i < i_end
                    invariant
                        copy4_ok(out0.len() as int, o, t, buf@.len() as int, d, diag),
                        o == out_offsets@, t == out_s2ij_shape@, d == buf_shape@,
                        out@.len() == out0.len(), out_len == out0.len(), buf_len == buf@.len(),
                        c < d[3],
                        k < d[2],
                        j < d[1],
                        i_end == if diag { j + 1 } else { d[0] as int },
                        i <= i_end,
                        forall|qi: int, qj: int, qk: int, ql: int| box4(qi, qj, qk, ql, d, diag) && (ql < c || (ql == c && (qk < k || (qk == k && (qj < j || (qj == j && (qi < i)))))))
                            ==> out@[#[trigger] tgt4(qi, qj, qk, ql, o, t)] == buf@[f4(qi, qj, qk, ql, d[0] as int, d[1] as int, d[2] as int)],
                        forall|n: int| 0 <= n < out0.len() && !hit4(n, o, t, d, diag) ==> #[trigger] out@[n] == out0[n],
                    decreases i_end - i,
                {
                    proof {
                        lemma_copy4_bounds(i as int, j as int, k as int, c as int, o, t, out0.len() as int, buf@.len() as int, d, diag);
                    }
                    let out_indices = [out_offsets[0] + i, out_offsets[1] + j, out_offsets[2] + k, out_offsets[3] + c];
                    let buf_indices = [i, j, k, c];
                    let out_index = get_f_index_4d_s2ij(&out_indices, out_s2ij_shape);
                    let buf_index = get_f_index_4d(&buf_indices, buf_shape);
                    out[out_index] = buf[buf_index];
                    proof {
                        assert(tgt4(i as int, j as int, k as int, c as int, o, t) == out_index);
                        assert(hit4(out_index as int, o, t, d, diag));
                        assert forall|qi: int, qj: int, qk: int, ql: int| box4(qi, qj, qk, ql, d, diag) && (ql < c || (ql == c && (qk < k || (qk == k && (qj < j || (qj == j && (qi < i + 1)))))))
                            implies out@[#[trigger] tgt4(qi, qj, qk, ql, o, t)] == buf@[f4(qi, qj, qk, ql, d[0] as int, d[1] as int, d[2] as int)] by {
                            lemma_copy4_bounds(qi, qj, qk, ql, o, t, out0.len() as int, buf@.len() as int, d, diag);
                            if qi != i || qj != j || qk != k || ql != c {
                                if tgt4(qi, qj, qk, ql, o, t) == out_index {
                                    lemma_tgt4_injective(qi, qj, qk, ql, i as int, j as int, k as int, c as int, o, t, out0.len() as int, buf@.len() as int, d, diag);
                                }
                            }
                        }
                    }
                    i += 1;
                }
                j += 1;
            }
            k += 1;
        }
        c += 1;
    }
}

// ---------------------------------------------------------------------------
// Copies of a 5-axis block.

/// `(i, j, k, l, m)` lies in a block of shape `d`; on a diagonal block only `i <= j` counts.
pub open spec fn box5(i: int, j: int, k: int, l: int, m: int, d: Seq<usize>, diag: bool) -> bool {
    &&& 0 <= i < d[0]
    &&& 0 <= j < d[1]
    &&& 0 <= k < d[2]
    &&& 0 <= l < d[3]
    &&& 0 <= m < d[4]
    &&& diag ==> i <= j
}

/// Packed position of block element `(i, j, k, l, m)` placed at offsets `o`.
pub open spec fn tgt5(i: int, j: int, k: int, l: int, m: int, o: Seq<usize>, t: Seq<usize>) -> int {
    packed5(o[0] + i, o[1] + j, o[2] + k, o[3] + l, o[4] + m, t[0] as int, t[1] as int, t[2] as int)
}

/// Position `n` of the packed output receives some element of the block.
pub open spec fn hit5(n: int, o: Seq<usize>, t: Seq<usize>, d: Seq<usize>, diag: bool) -> bool {
    exists|i: int, j: int, k: int, l: int, m: int| box5(i, j, k, l, m, d, diag) && #[trigger] tgt5(i, j, k, l, m, o, t) == n
}

/// What the packed 5-axis copies need of their arguments.
pub open spec fn copy5_ok(out_len: int, o: Seq<usize>, t: Seq<usize>, buf_len: int, d: Seq<usize>, diag: bool) -> bool {
    &&& o.len() == 5 && t.len() == 4 && d.len() == 5
    &&& if diag { o[0] == o[1] && d[0] == d[1] } else { o[0] + d[0] <= o[1] + 1 }
    &&& (o[1] + d[1]) * (o[1] + d[1]) <= usize::MAX
    &&& forall|a: int| 0 <= a < 5 ==> #[trigger] o[a] + d[a] <= usize::MAX
    &&& tri(o[1] + d[1]) <= t[0]
    &&& o[2] + d[2] <= t[1]
    &&& o[3] + d[3] <= t[2]
    &&& t[0] * (t[1] * (t[2] * ((o[4] + d[4])))) <= out_len
    &&& d[0] * (d[1] * (d[2] * (d[3] * (d[4])))) <= buf_len
}

/// What the packed 5-axis copies leave in `out`.
pub open spec fn copied5<T>(out: Seq<T>, out0: Seq<T>, o: Seq<usize>, t: Seq<usize>, buf: Seq<T>, d: Seq<usize>, diag: bool) -> bool {
    &&& out.len() == out0.len()
    &&& forall|i: int, j: int, k: int, l: int, m: int| box5(i, j, k, l, m, d, diag)
        ==> out[#[trigger] tgt5(i, j, k, l, m, o, t)] == buf[f5(i, j, k, l, m, d[0] as int, d[1] as int, d[2] as int, d[3] as int)]
    &&& forall|n: int| 0 <= n < out0.len() && !hit5(n, o, t, d, diag) ==> #[trigger] out[n] == out0[n]
}

/// Bounds of both positions of an element of a 5-axis block.
proof fn lemma_copy5_bounds(i: int, j: int, k: int, l: int, m: int, o: Seq<usize>, t: Seq<usize>, out_len: int, buf_len: int, d: Seq<usize>, diag: bool)
    requires
        copy5_ok(out_len, o, t, buf_len, d, diag),
        box5(i, j, k, l, m, d, diag),
    ensures
        0 <= tgt5(i, j, k, l, m, o, t) < out_len,
        0 <= o[0] + i + tri(o[1] + j) < t[0],
        0 <= f3(o[2] + k, o[3] + l, o[4] + m, t[1] as int, t[2] as int) <= tgt5(i, j, k, l, m, o, t),
        0 <= f2(o[3] + l, o[4] + m, t[2] as int) <= f3(o[2] + k, o[3] + l, o[4] + m, t[1] as int, t[2] as int),
        0 <= f2(l, m, d[3] as int) <= f5(i, j, k, l, m, d[0] as int, d[1] as int, d[2] as int, d[3] as int),
        0 <= f3(k, l, m, d[2] as int, d[3] as int) <= f5(i, j, k, l, m, d[0] as int, d[1] as int, d[2] as int, d[3] as int),
        0 <= f4(j, k, l, m, d[1] as int, d[2] as int, d[3] as int) <= f5(i, j, k, l, m, d[0] as int, d[1] as int, d[2] as int, d[3] as int),
        0 <= f5(i, j, k, l, m, d[0] as int, d[1] as int, d[2] as int, d[3] as int) <= f5(i, j, k, l, m, d[0] as int, d[1] as int, d[2] as int, d[3] as int),
        0 <= f5(i, j, k, l, m, d[0] as int, d[1] as int, d[2] as int, d[3] as int) < buf_len,
        (o[1] + j) * (o[1] + j + 1) <= usize::MAX,
{
    assert(o[0] + d[0] <= usize::MAX);
    lemma_pair_bound(o[0] + i, o[1] + j, o[1] + d[1]);
    lemma_stride_bound(o[3] + l, o[4] + m, t[2] as int, (o[4] + d[4]) as int);
    lemma_mul_le_sum(t[2] as int, o[4] + m, o[3] + l);
    lemma_stride_bound(o[2] + k, f2(o[3] + l, o[4] + m, t[2] as int), t[1] as int, t[2] as int * ((o[4] + d[4]) as int));
    lemma_mul_le_sum(t[1] as int, f2(o[3] + l, o[4] + m, t[2] as int), o[2] + k);
    lemma_stride_bound(o[0] + i + tri(o[1] + j), f3(o[2] + k, o[3] + l, o[4] + m, t[1] as int, t[2] as int), t[0] as int, t[1] as int * (t[2] as int * ((o[4] + d[4]) as int)));
    lemma_mul_le_sum(t[0] as int, f3(o[2] + k, o[3] + l, o[4] + m, t[1] as int, t[2] as int), o[0] + i + tri(o[1] + j));
    lemma_stride_bound(l, m, d[3] as int, d[4] as int);
    lemma_mul_le_sum(d[3] as int, m, l);
    lemma_stride_bound(k, f2(l, m, d[3] as int), d[2] as int, d[3] as int * (d[4] as int));
    lemma_mul_le_sum(d[2] as int, f2(l, m, d[3] as int), k);
    lemma_stride_bound(j, f3(k, l, m, d[2] as int, d[3] as int), d[1] as int, d[2] as int * (d[3] as int * (d[4] as int)));
    lemma_mul_le_sum(d[1] as int, f3(k, l, m, d[2] as int, d[3] as int), j);
    lemma_stride_bound(i, f4(j, k, l, m, d[1] as int, d[2] as int, d[3] as int), d[0] as int, d[1] as int * (d[2] as int * (d[3] as int * (d[4] as int))));
    lemma_mul_le_sum(d[0] as int, f4(j, k, l, m, d[1] as int, d[2] as int, d[3] as int), i);
    let q = o[1] + j;
    let n = o[1] + d[1];
    assert(q * (q + 1) <= n * n) by (nonlinear_arith)
        requires
            0 <= q < n,
    ;
}

/// Two elements of a 5-axis block never share a packed position.
proof fn lemma_tgt5_injective(i1: int, j1: int, k1: int, l1: int, m1: int, i2: int, j2: int, k2: int, l2: int, m2: int, o: Seq<usize>, t: Seq<usize>, out_len: int, buf_len: int, d: Seq<usize>, diag: bool)
    requires
        copy5_ok(out_len, o, t, buf_len, d, diag),
        box5(i1, j1, k1, l1, m1, d, diag),
        box5(i2, j2, k2, l2, m2, d, diag),
        tgt5(i1, j1, k1, l1, m1, o, t) == tgt5(i2, j2, k2, l2, m2, o, t),
    ensures
        i1 == i2 && j1 == j2 && k1 == k2 && l1 == l2 && m1 == m2,
{
    lemma_copy5_bounds(i1, j1, k1, l1, m1, o, t, out_len, buf_len, d, diag);
    lemma_copy5_bounds(i2, j2, k2, l2, m2, o, t, out_len, buf_len, d, diag);
    lemma_stride_injective(o[0] + i1 + tri(o[1] + j1), f3(o[2] + k1, o[3] + l1, o[4] + m1, t[1] as int, t[2] as int), o[0] + i2 + tri(o[1] + j2), f3(o[2] + k2, o[3] + l2, o[4] + m2, t[1] as int, t[2] as int), t[0] as int);
    lemma_stride_injective(o[2] + k1, f2(o[3] + l1, o[4] + m1, t[2] as int), o[2] + k2, f2(o[3] + l2, o[4] + m2, t[2] as int), t[1] as int);
    lemma_stride_injective(o[3] + l1, o[4] + m1, o[3] + l2, o[4] + m2, t[2] as int);
    lemma_pair_injective(o[0] + i1, o[1] + j1, o[0] + i2, o[1] + j2);
}

/// Copies an off-diagonal 5-axis block `buf` (column-major) into the packed output
/// `out`: element `(i, j, k, l, c)` goes to the packed pair `(out_offsets[0] + i, out_offsets[1] + j)`
/// and to `out_offsets[a]` plus its own index on each further axis `a`.
pub fn copy_5d_s2ij_offdiag<T: Copy>(out: &mut [T], out_offsets: &[usize; 5], out_s2ij_shape: &[usize; 4], buf: &[T], buf_shape: &[usize; 5])
    requires
        copy5_ok(old(out)@.len() as int, out_offsets@, out_s2ij_shape@, buf@.len() as int, buf_shape@, false),
    ensures
        copied5(final(out)@, old(out)@, out_offsets@, out_s2ij_shape@, buf@, buf_shape@, false),
{
    copy_5d_s2ij(out, out_offsets, out_s2ij_shape, buf, buf_shape, false)
}

/// Copies a diagonal 5-axis block (both basis axes over the same shell) into the
/// packed output: only the elements with `i <= j` are stored.
pub fn copy_5d_s2ij_diag<T: Copy>(out: &mut [T], out_offsets: &[usize; 5], out_s2ij_shape: &[usize; 4], buf: &[T], buf_shape: &[usize; 5])
    requires
        copy5_ok(old(out)@.len() as int, out_offsets@, out_s2ij_shape@, buf@.len() as int, buf_shape@, true),
    ensures
        copied5(final(out)@, old(out)@, out_offsets@, out_s2ij_shape@, buf@, buf_shape@, true),
{
    copy_5d_s2ij(out, out_offsets, out_s2ij_shape, buf, buf_shape, true)
}

fn copy_5d_s2ij<T: Copy>(out: &mut [T], out_offsets: &[usize; 5], out_s2ij_shape: &[usize; 4], buf: &[T], buf_shape: &[usize; 5], diag: bool)
    requires
        copy5_ok(old(out)@.len() as int, out_offsets@, out_s2ij_shape@, buf@.len() as int, buf_shape@, diag),
    ensures
        copied5(final(out)@, old(out)@, out_offsets@, out_s2ij_shape@, buf@, buf_shape@, diag),
{
    let ghost out0 = out@;
    let ghost o = out_offsets@;
    let ghost t = out_s2ij_shape@;
    let ghost d = buf_shape@;
    let out_len = out.len();
    let buf_len = buf.len();
    let mut c: usize = 0;
    while c < buf_shape[4]
        invariant
            copy5_ok(out0.len() as int, o, t, buf@.len() as int, d, diag),
            o == out_offsets@, t == out_s2ij_shape@, d == buf_shape@,
            out@.len() == out0.len(), out_len == out0.len(), buf_len == buf@.len(),
            c <= d[4],
            forall|qi: int, qj: int, qk: int, ql: int, qm: int| box5(qi, qj, qk, ql, qm, d, diag) && (qm < c)
                ==> out@[#[trigger] tgt5(qi, qj, qk, ql, qm, o, t)] == buf@[f5(qi, qj, qk, ql, qm, d[0] as int, d[1] as int, d[2] as int, d[3] as int)],
            forall|n: int| 0 <= n < out0.len() && !hit5(n, o, t, d, diag) ==> #[trigger] out@[n] == out0[n],
        decreases d[4] - c,
    {
        let mut l: usize = 0;
        while l < buf_shape[3]
            invariant
                copy5_ok(out0.len() as int, o, t, buf@.len() as int, d, diag),
                o == out_offsets@, t == out_s2ij_shape@, d == buf_shape@,
                out@.len() == out0.len(), out_len == out0.len(), buf_len == buf@.len(),
                c < d[4],
                l <= d[3],
                forall|qi: int, qj: int, qk: int, ql: int, qm: int| box5(qi, qj, qk, ql, qm, d, diag) && (qm < c || (qm == c && (ql < l)))
                    ==> out@[#[trigger] tgt5(qi, qj, qk, ql, qm, o, t)] == buf@[f5(qi, qj, qk, ql, qm, d[0] as int, d[1] as int, d[2] as int, d[3] as int)],
                forall|n: int| 0 <= n < out0.len() && !hit5(n, o, t, d, diag) ==> #[trigger] out@[n] == out0[n],
            decreases d[3] - l,
        {
            let mut k: usize = 0;
            while k < buf_shape[2]
                invariant
                    copy5_ok(out0.len() as int, o, t, buf@.len() as int, d, diag),
                    o == out_offsets@, t == out_s2ij_shape@, d == buf_shape@,
                    out@.len() == out0.len(), out_len == out0.len(), buf_len == buf@.len(),
                    c < d[4],
                    l < d[3],
                    k <= d[2],
                    forall|qi: int, qj: int, qk: int, ql: int, qm: int| box5(qi, qj, qk, ql, qm, d, diag) && (qm < c || (qm == c && (ql < l || (ql == l && (qk < k)))))
                        ==> out@[#[trigger] tgt5(qi, qj, qk, ql, qm, o, t)] == buf@[f5(qi, qj, qk, ql, qm, d[0] as int, d[1] as int, d[2] as int, d[3] as int)],
                    forall|n: int| 0 <= n < out0.len() && !hit5(n, o, t, d, diag) ==> #[trigger] out@[n] == out0[n],
                decreases d[2] - k,
            {
                let mut j: usize = 0;
                while j < buf_shape[1]
                    invariant
                        copy5_ok(out0.len() as int, o, t, buf@.len() as int, d, diag),
                        o == out_offsets@, t == out_s2ij_shape@, d == buf_shape@,
                        out@.len() == out0.len(), out_len == out0.len(), buf_len == buf@.len(),
                        c < d[4],
                        l < d[3],
                        k < d[2],
                        j <= d[1],
                        forall|qi: int, qj: int, qk: int, ql: int, qm: int| box5(qi, qj, qk, ql, qm, d, diag) && (qm < c || (qm == c && (ql < l || (ql == l && (qk < k || (qk == k && (qj < j)))))))
                            ==> out@[#[trigger] tgt5(qi, qj, qk, ql, qm, o, t)] == buf@[f5(qi, qj, qk, ql, qm, d[0] as int, d[1] as int, d[2] as int, d[3] as int)],
                        forall|n: int| 0 <= n < out0.len() && !hit5(n, o, t, d, diag) ==> #[trigger] out@[n] == out0[n],
                    decreases d[1] - j,
                {
                    let i_end = if diag { j + 1 } else { buf_shape[0] };
                    let mut i: usize = 0;
                    while i < i_end
                        invariant
                            copy5_ok(out0.len() as int, o, t, buf@.len() as int, d, diag),
                            o == out_offsets@, t == out_s2ij_shape@, d == buf_shape@,
                            out@.len() == out0.len(), out_len == out0.len(), buf_len == buf@.len(),
                            c < d[4],
                            l < d[3],
                            k < d[2],
                            j < d[1],
                            i_end == if diag { j + 1 } else { d[0] as int },
                            i <= i_end,
                            forall|qi: int, qj: int, qk: int, ql: int, qm: int| box5(qi, qj, qk, ql, qm, d, diag) && (qm < c || (qm == c && (ql < l || (ql == l && (qk < k || (qk == k && (qj < j || (qj == j && (qi < i)))))))))
                                ==> out@[#[trigger] tgt5(qi, qj, qk, ql, qm, o, t)] == buf@[f5(qi, qj, qk, ql, qm, d[0] as int, d[1] as int, d[2] as int, d[3] as int)],
                            forall|n: int| 0 <= n < out0.len() && !hit5(n, o, t, d, diag) ==> #[trigger] out@[n] == out0[n],
                        decreases i_end - i,
                    {
                        proof {
                            lemma_copy5_bounds(i as int, j as int, k as int, l as int, c as int, o, t, out0.len() as int, buf@.len() as int, d, diag);
                        }
                        let out_indices = [out_offsets[0] + i, out_offsets[1] + j, out_offsets[2] + k, out_offsets[3] + l, out_offsets[4] + c];
                        let buf_indices = [i, j, k, l, c];
                        let out_index = get_f_index_5d_s2ij(&out_indices, out_s2ij_shape);
                        let buf_index = get_f_index_5d(&buf_indices, buf_shape);
                        out[out_index] = buf[buf_index];
                        proof {
                            assert(tgt5(i as int, j as int, k as int, l as int, c as int, o, t) == out_index);
                            assert(hit5(out_index as int, o, t, d, diag));
                            assert forall|qi: int, qj: int, qk: int, ql: int, qm: int| box5(qi, qj, qk, ql, qm, d, diag) && (qm < c || (qm == c && (ql < l || (ql == l && (qk < k || (qk == k && (qj < j || (qj == j && (qi < i + 1)))))))))
                                implies out@[#[trigger] tgt5(qi, qj, qk, ql, qm, o, t)] == buf@[f5(qi, qj, qk, ql, qm, d[0] as int, d[1] as int, d[2] as int, d[3] as int)] by {
                                lemma_copy5_bounds(qi, qj, qk, ql, qm, o, t, out0.len() as int, buf@.len() as int, d, diag);
                                if qi != i || qj != j || qk != k || ql != l || qm != c {
                                    if tgt5(qi, qj, qk, ql, qm, o, t) == out_index {
                                        lemma_tgt5_injective(qi, qj, qk, ql, qm, i as int, j as int, k as int, l as int, c as int, o, t, out0.len() as int, buf@.len() as int, d, diag);
                                    }
                                }
                            }
                        }
                        i += 1;
                    }
                    j += 1;
                }
                k += 1;
            }
            l += 1;
        }
        c += 1;
    }
}

} // verus!
