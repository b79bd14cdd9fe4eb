//! Packed assembly: the first two axes share one slice and are stored as one
//! axis of pairs, row not after column. The kernel fills a scratch block,
//! which is then copied into the packed output.
use vstd::prelude::*;
use crate::basis::{CINTR2CDATA, MAX_AO, lemma_loc_mono};
use crate::dense::{
    DensePlan, call_ok, counts, extents, n_blocks, block_shells, block_dims, block_aoff, dense_ao,
    dense_elem, dense_len, full_slices, shift, lemma_block, lemma_block_shells, lemma_call_ok, lemma_dims_le_extents,
    lemma_slice_of_full, lemma_dense_disjoint, lemma_dense_cover, dense_pos,
};
use crate::layout::{
    tri, box3, box4, box5, tgt3, tgt4, tgt5, hit3, hit4, hit5, copy3_ok, copy4_ok,
    copy5_ok, copied3, copied4, copied5, copy_3d_s2ij_diag, copy_3d_s2ij_offdiag, copy_4d_s2ij_diag,
    copy_4d_s2ij_offdiag, copy_5d_s2ij_diag, copy_5d_s2ij_offdiag, lemma_tri_mono, lemma_pair_onto,
    lemma_pair_injective, lemma_stride_injective, lemma_stride_bound,
};
use crate::shape::{IntegralKind, SliceError, slices_fault, extent};
use crate::tensor::{
    fidx, prod, in_box, ints, checked_prod, unfidx, lemma_fidx12, lemma_fidx3, lemma_fidx4, lemma_prod_le, lemma_prod_push,
    lemma_prod_cons, lemma_prod_nonneg, lemma_fidx_bound, lemma_fidx_injective, lemma_unfidx,
};

verus! {

/// A packed call the engine accepts: a dense one whose first two slices are equal.
pub open spec fn packed_ok(cat: CINTR2CDATA, kind: IntegralKind, ss: Seq<[i32; 2]>) -> bool {
    call_ok(cat, kind, ss) && ss[0] == ss[1]
}

/// Shape addressing the packed output: the pairs, the further extents, the components.
pub open spec fn packed_dims(cat: CINTR2CDATA, kind: IntegralKind, ss: Seq<[i32; 2]>) -> Seq<int> {
    seq![tri(extents(cat, ss)[0])] + extents(cat, ss).subrange(2, ss.len() as int) + seq![kind.n_comp as int]
}

/// Elements of the packed output.
pub open spec fn packed_len(cat: CINTR2CDATA, kind: IntegralKind, ss: Seq<[i32; 2]>) -> int {
    prod(packed_dims(cat, kind, ss))
}

/// Packed position of component `c` at the basis functions `p`, whose first
/// two entries are a row not after its column.
pub open spec fn pair_index(cat: CINTR2CDATA, kind: IntegralKind, ss: Seq<[i32; 2]>, p: Seq<int>, c: int) -> int {
    p[0] + tri(p[1]) + tri(extents(cat, ss)[0]) * fidx(
        p.subrange(2, p.len() as int).push(c),
        extents(cat, ss).subrange(2, ss.len() as int).push(kind.n_comp as int),
    )
}

/// Block `b` is computed: its first shell does not come after its second.
pub open spec fn stored(ss: Seq<[i32; 2]>, b: int) -> bool {
    block_shells(ss, b)[0] <= block_shells(ss, b)[1]
}

/// Component `c` of element `e` of block `b` is kept in the packed output.
pub open spec fn packed_elem(cat: CINTR2CDATA, kind: IntegralKind, ss: Seq<[i32; 2]>, b: int, e: Seq<int>, c: int) -> bool {
    &&& dense_elem(cat, kind, ss, b, e, c)
    &&& stored(ss, b)
    &&& block_shells(ss, b)[0] == block_shells(ss, b)[1] ==> e[0] <= e[1]
}

/// Where the packed output keeps component `c` of element `e` of block `b`.
pub open spec fn packed_pos(cat: CINTR2CDATA, kind: IntegralKind, ss: Seq<[i32; 2]>, b: int, e: Seq<int>, c: int) -> int {
    pair_index(cat, kind, ss, dense_ao(cat, ss, b, e), c)
}

/// Some kept element of block `b` lies at position `n`.
pub open spec fn packed_hit(cat: CINTR2CDATA, kind: IntegralKind, ss: Seq<[i32; 2]>, b: int, n: int) -> bool {
    exists|e: Seq<int>, c: int| packed_elem(cat, kind, ss, b, e, c) && #[trigger] packed_pos(cat, kind, ss, b, e, c) == n
}

/// Where the kernel's scratch block for block `b` holds component `c` of element `e`.
pub open spec fn block_src(cat: CINTR2CDATA, kind: IntegralKind, ss: Seq<[i32; 2]>, b: int, e: Seq<int>, c: int) -> int {
    fidx(e.push(c), block_dims(cat, ss, b).push(kind.n_comp as int))
}

/// Elements of the kernel's scratch block for block `b`.
pub open spec fn block_len(cat: CINTR2CDATA, kind: IntegralKind, ss: Seq<[i32; 2]>, b: int) -> int {
    prod(block_dims(cat, ss, b).push(kind.n_comp as int))
}

/// The packed output keeps exactly the elements of the dense output whose
/// row along the first axis is not after their column along the second, on
/// diagonal and off-diagonal shell pairs alike, each at the packed index of
/// its basis functions.
pub proof fn lemma_packed_is_lower_triangle(cat: CINTR2CDATA, kind: IntegralKind, ss: Seq<[i32; 2]>, b: int, e: Seq<int>, c: int)
    requires
        packed_ok(cat, kind, ss),
        dense_elem(cat, kind, ss, b, e, c),
    ensures
        packed_elem(cat, kind, ss, b, e, c) <==> dense_ao(cat, ss, b, e)[0] <= dense_ao(cat, ss, b, e)[1],
        packed_pos(cat, kind, ss, b, e, c) == pair_index(cat, kind, ss, dense_ao(cat, ss, b, e), c),
{
    lemma_block(cat, kind, ss, b, e);
    cat.lemma_wf_counts();
    let s0 = block_shells(ss, b)[0];
    let s1 = block_shells(ss, b)[1];
    assert(e[0] < block_dims(cat, ss, b)[0]);
    assert(e[1] < block_dims(cat, ss, b)[1]);
    cat.lemma_wf(s0);
    cat.lemma_wf(s1);
    if s0 < s1 {
        lemma_loc_mono(cat.ty(), cat.bas(), cat.nbas(), s0 + 1, s1);
    } else if s1 < s0 {
        lemma_loc_mono(cat.ty(), cat.bas(), cat.nbas(), s1 + 1, s0);
    }
}

/// A kept element of a sliced packed call is a kept element of the packed
/// call over all shells, of the block with the same shells, at the same basis
/// functions shifted by the offsets of the slice starts.
pub proof fn lemma_packed_slice_of_full(cat: CINTR2CDATA, kind: IntegralKind, ss: Seq<[i32; 2]>, b: int, e: Seq<int>, c: int)
    requires
        packed_ok(cat, kind, ss),
        packed_elem(cat, kind, ss, b, e, c),
    ensures
        ({
            let full = full_slices(cat, kind.n_center as int);
            let bf = fidx(block_shells(ss, b), counts(full));
            &&& packed_ok(cat, kind, full)
            &&& packed_elem(cat, kind, full, bf, e, c)
            &&& block_shells(full, bf) == block_shells(ss, b)
            &&& dense_ao(cat, full, bf, e)
                == shift(dense_ao(cat, ss, b, e), Seq::new(ss.len(), |a: int| cat.loc(ss[a][0] as int)))
        }),
{
    lemma_slice_of_full(cat, kind, ss, b, e, c);
    let full = full_slices(cat, kind.n_center as int);
    assert(full[0] == full[1]);
}

/// Extents after the pair axis: the further basis-function axes, then the components.
pub open spec fn rest_dims(cat: CINTR2CDATA, kind: IntegralKind, ss: Seq<[i32; 2]>) -> Seq<int> {
    extents(cat, ss).subrange(2, ss.len() as int).push(kind.n_comp as int)
}

/// The packed position of a kept element splits into its pair and the rest.
proof fn lemma_packed_parts(cat: CINTR2CDATA, kind: IntegralKind, ss: Seq<[i32; 2]>, b: int, e: Seq<int>, c: int)
    requires
        packed_ok(cat, kind, ss),
        packed_elem(cat, kind, ss, b, e, c),
    ensures
        ({
            let p = dense_ao(cat, ss, b, e);
            let t0 = tri(extents(cat, ss)[0]);
            let q = p.subrange(2, p.len() as int).push(c);
            &&& in_box(p, extents(cat, ss))
            &&& 0 <= p[0] <= p[1]
            &&& 0 <= p[0] + tri(p[1]) < t0
            &&& in_box(q, rest_dims(cat, kind, ss))
            &&& 0 <= fidx(q, rest_dims(cat, kind, ss)) < prod(rest_dims(cat, kind, ss))
            &&& packed_pos(cat, kind, ss, b, e, c) == p[0] + tri(p[1]) + t0 * fidx(q, rest_dims(cat, kind, ss))
            &&& packed_len(cat, kind, ss) == t0 * prod(rest_dims(cat, kind, ss))
        }),
{
    let d = extents(cat, ss);
    let p = dense_ao(cat, ss, b, e);
    let rd = rest_dims(cat, kind, ss);
    let q = p.subrange(2, p.len() as int).push(c);
    lemma_block(cat, kind, ss, b, e);
    lemma_packed_is_lower_triangle(cat, kind, ss, b, e, c);
    lemma_call_ok(cat, kind, ss);
    assert(d[0] == d[1]);
    assert(p[1] < d[1]);
    crate::layout::lemma_pair_bound(p[0], p[1], d[0]);
    assert forall|a: int| 0 <= a < q.len() implies 0 <= #[trigger] q[a] < rd[a] by {
        if a + 2 < p.len() {
            assert(q[a] == p[a + 2]);
            assert(p[a + 2] < d[a + 2]);
        }
    }
    assert(in_box(q, rd));
    lemma_fidx_bound(q, rd);
    assert(packed_dims(cat, kind, ss) =~= seq![tri(d[0])] + rd);
    lemma_prod_cons(tri(d[0]), rd);
}

/// Packed assembly writes each position of the packed output at most once:
/// two kept elements of stored blocks that land on the same position are the
/// same element of the same block.
pub proof fn lemma_packed_disjoint(
    cat: CINTR2CDATA,
    kind: IntegralKind,
    ss: Seq<[i32; 2]>,
    b1: int,
    e1: Seq<int>,
    c1: int,
    b2: int,
    e2: Seq<int>,
    c2: int,
)
    requires
        packed_ok(cat, kind, ss),
        packed_elem(cat, kind, ss, b1, e1, c1),
        packed_elem(cat, kind, ss, b2, e2, c2),
        packed_pos(cat, kind, ss, b1, e1, c1) == packed_pos(cat, kind, ss, b2, e2, c2),
    ensures
        b1 == b2,
        e1 == e2,
        c1 == c2,
{
    let d = extents(cat, ss);
    let rd = rest_dims(cat, kind, ss);
    let pa = dense_ao(cat, ss, b1, e1);
    let pb = dense_ao(cat, ss, b2, e2);
    let qa = pa.subrange(2, pa.len() as int).push(c1);
    let qb = pb.subrange(2, pb.len() as int).push(c2);
    lemma_packed_parts(cat, kind, ss, b1, e1, c1);
    lemma_packed_parts(cat, kind, ss, b2, e2, c2);
    lemma_stride_injective(pa[0] + tri(pa[1]), fidx(qa, rd), pb[0] + tri(pb[1]), fidx(qb, rd), tri(d[0]));
    lemma_pair_injective(pa[0], pa[1], pb[0], pb[1]);
    lemma_fidx_injective(qa, qb, rd);
    assert(qa[qa.len() - 1] == c1 && qb[qb.len() - 1] == c2);
    assert forall|a: int| 2 <= a < pa.len() implies pa[a] == pb[a] by {
        assert(qa[a - 2] == pa[a] && qb[a - 2] == pb[a]);
    }
    assert(pa =~= pb);
    lemma_dense_disjoint(cat, kind, ss, b1, e1, c1, b2, e2, c2);
}

/// Packed assembly leaves no gap: every position of the packed output keeps
/// some component of some element of some stored block.
pub proof fn lemma_packed_cover(cat: CINTR2CDATA, kind: IntegralKind, ss: Seq<[i32; 2]>, n: int)
    requires
        packed_ok(cat, kind, ss),
        0 <= n < packed_len(cat, kind, ss),
    ensures
        exists|b: int, e: Seq<int>, c: int|
            packed_elem(cat, kind, ss, b, e, c) && #[trigger] packed_pos(cat, kind, ss, b, e, c) == n,
{
    let d = extents(cat, ss);
    let rd = rest_dims(cat, kind, ss);
    let len = ss.len() as int;
    let nc = kind.n_comp as int;
    lemma_call_ok(cat, kind, ss);
    assert(d[0] == d[1]);
    assert forall|a: int| 0 <= a < rd.len() implies 0 <= #[trigger] rd[a] by {
        if a < len - 2 {
            assert(rd[a] == d[a + 2]);
        }
    }
    lemma_prod_nonneg(rd);
    assert(packed_dims(cat, kind, ss) =~= seq![tri(d[0])] + rd);
    lemma_prod_cons(tri(d[0]), rd);
    let t0 = tri(d[0]);
    let pr = prod(rd);
    assert(t0 > 0) by (nonlinear_arith)
        requires
            0 <= n < t0 * pr,
            0 <= pr,
    ;
    assert(0 <= n % t0 < t0 && 0 <= n / t0 < pr && n == n % t0 + t0 * (n / t0)) by (nonlinear_arith)
        requires
            0 <= n < t0 * pr,
            t0 > 0,
    ;
    let u = n % t0;
    let r = n / t0;
    let (i0, j0) = lemma_pair_onto(u, d[0]);
    lemma_unfidx(r, rd);
    let q = unfidx(r, rd);
    let c = q[q.len() - 1];
    let p = seq![i0, j0] + q.drop_last();
    assert(p.len() == len);
    assert forall|a: int| 0 <= a < len implies 0 <= #[trigger] p[a] < d[a] by {
        if a >= 2 {
            assert(p[a] == q[a - 2]);
            assert(rd[a - 2] == d[a]);
        }
    }
    assert(in_box(p, d));
    // the dense element at these basis functions and component
    lemma_fidx_bound(p, d);
    lemma_stride_bound(fidx(p, d), c, prod(d), nc);
    let pd = prod(d);
    assert(pd * nc == nc * pd) by (nonlinear_arith);
    let m = fidx(p, d) + prod(d) * c;
    lemma_dense_cover(cat, kind, ss, m);
    let (b, e, c2) = choose|b: int, e: Seq<int>, c2: int|
        dense_elem(cat, kind, ss, b, e, c2) && #[trigger] dense_pos(cat, ss, b, e, c2) == m;
    lemma_block(cat, kind, ss, b, e);
    let pe = dense_ao(cat, ss, b, e);
    lemma_fidx_bound(pe, d);
    lemma_stride_injective(fidx(pe, d), c2, fidx(p, d), c, prod(d));
    lemma_fidx_injective(pe, p, d);
    lemma_packed_is_lower_triangle(cat, kind, ss, b, e, c);
    assert(p.subrange(2, len).push(c) =~= q);
    assert(packed_elem(cat, kind, ss, b, e, c));
    assert(packed_pos(cat, kind, ss, b, e, c) == n);
}

/// Kept elements of stored blocks fall inside the packed output.
pub proof fn lemma_packed_bound(cat: CINTR2CDATA, kind: IntegralKind, ss: Seq<[i32; 2]>, b: int, e: Seq<int>, c: int)
    requires
        packed_ok(cat, kind, ss),
        packed_elem(cat, kind, ss, b, e, c),
    ensures
        0 <= packed_pos(cat, kind, ss, b, e, c) < packed_len(cat, kind, ss),
{
    let p = dense_ao(cat, ss, b, e);
    let rd = rest_dims(cat, kind, ss);
    lemma_packed_parts(cat, kind, ss, b, e, c);
    lemma_stride_bound(p[0] + tri(p[1]), fidx(p.subrange(2, p.len() as int).push(c), rd), tri(extents(cat, ss)[0]), prod(rd));
}

/// Copies of two different blocks commute: the packed output of a call does
/// not depend on the order in which its blocks are written.
pub proof fn lemma_packed_writes_commute<T>(
    cat: CINTR2CDATA,
    kind: IntegralKind,
    ss: Seq<[i32; 2]>,
    b1: int,
    buf1: Seq<T>,
    b2: int,
    buf2: Seq<T>,
    out0: Seq<T>,
    mid1: Seq<T>,
    out1: Seq<T>,
    mid2: Seq<T>,
    out2: Seq<T>,
)
    requires
        packed_ok(cat, kind, ss),
        out0.len() == packed_len(cat, kind, ss),
        b1 != b2,
        packed_written(cat, kind, ss, b1, mid1, out0, buf1),
        packed_written(cat, kind, ss, b2, out1, mid1, buf2),
        packed_written(cat, kind, ss, b2, mid2, out0, buf2),
        packed_written(cat, kind, ss, b1, out2, mid2, buf1),
    ensures
        out1 == out2,
{
    assert forall|m: int| 0 <= m < out1.len() implies out1[m] == out2[m] by {
        if packed_hit(cat, kind, ss, b1, m) {
            let (e, c) = choose|e: Seq<int>, c: int| packed_elem(cat, kind, ss, b1, e, c) && #[trigger] packed_pos(cat, kind, ss, b1, e, c) == m;
            if packed_hit(cat, kind, ss, b2, m) {
                let (e2, c2) = choose|e2: Seq<int>, c2: int| packed_elem(cat, kind, ss, b2, e2, c2) && #[trigger] packed_pos(cat, kind, ss, b2, e2, c2) == m;
                lemma_packed_disjoint(cat, kind, ss, b1, e, c, b2, e2, c2);
            }
            assert(mid1[packed_pos(cat, kind, ss, b1, e, c)] == buf1[block_src(cat, kind, ss, b1, e, c)]);
            assert(out2[packed_pos(cat, kind, ss, b1, e, c)] == buf1[block_src(cat, kind, ss, b1, e, c)]);
            assert(out1[m] == mid1[m]);
        } else if packed_hit(cat, kind, ss, b2, m) {
            let (e, c) = choose|e: Seq<int>, c: int| packed_elem(cat, kind, ss, b2, e, c) && #[trigger] packed_pos(cat, kind, ss, b2, e, c) == m;
            assert(out1[packed_pos(cat, kind, ss, b2, e, c)] == buf2[block_src(cat, kind, ss, b2, e, c)]);
            assert(mid2[packed_pos(cat, kind, ss, b2, e, c)] == buf2[block_src(cat, kind, ss, b2, e, c)]);
            assert(out2[m] == mid2[m]);
        } else {
            assert(out1[m] == mid1[m]);
            assert(mid1[m] == out0[m]);
            assert(out2[m] == mid2[m]);
            assert(mid2[m] == out0[m]);
        }
    }
    assert(out1 =~= out2);
}

/// Facts about a computed block that the packed copies rely on.
proof fn lemma_stored_block(cat: CINTR2CDATA, kind: IntegralKind, ss: Seq<[i32; 2]>, b: int)
    requires
        packed_ok(cat, kind, ss),
        0 <= b < n_blocks(ss),
        stored(ss, b),
    ensures
        ({
            let o = block_aoff(cat, ss, b);
            let d = block_dims(cat, ss, b);
            let dd = extents(cat, ss);
            &&& o.len() == ss.len() && d.len() == ss.len() && dd.len() == ss.len()
            &&& 2 <= ss.len() <= 4
            &&& forall|a: int| 0 <= a < ss.len() ==> 0 <= #[trigger] o[a] && 0 <= d[a] && o[a] + d[a] <= dd[a] && dd[a] <= MAX_AO
            &&& if block_shells(ss, b)[0] == block_shells(ss, b)[1] {
                o[0] == o[1] && d[0] == d[1]
            } else {
                o[0] + d[0] <= o[1]
            }
            &&& dd[0] == dd[1]
        }),
{
    let n = ss.len() as int;
    cat.lemma_wf_counts();
    lemma_call_ok(cat, kind, ss);
    let o = block_aoff(cat, ss, b);
    let d = block_dims(cat, ss, b);
    let dd = extents(cat, ss);
    assert forall|a: int| 0 <= a < n implies 0 <= #[trigger] o[a] && 0 <= d[a] && o[a] + d[a] <= dd[a] && dd[a] <= MAX_AO by {
        let s = block_shells(ss, b)[a];
        lemma_block_shells(cat, kind, ss, b);
        cat.lemma_wf(s);
        cat.lemma_wf(ss[a][1] as int);
        lemma_loc_mono(cat.ty(), cat.bas(), cat.nbas(), ss[a][0] as int, s);
        lemma_loc_mono(cat.ty(), cat.bas(), cat.nbas(), s + 1, ss[a][1] as int);
        lemma_loc_mono(cat.ty(), cat.bas(), cat.nbas(), ss[a][0] as int, ss[a][1] as int);
    }
    let s0 = block_shells(ss, b)[0];
    let s1 = block_shells(ss, b)[1];
    lemma_block_shells(cat, kind, ss, b);
    cat.lemma_wf(s0);
    if s0 < s1 {
        lemma_loc_mono(cat.ty(), cat.bas(), cat.nbas(), s0 + 1, s1);
    }
}

/// Copying a block is a function of the output before it and of the scratch
/// block: any two results of the same copy are equal, so calls repeated on the
/// same inputs leave the same output.
pub proof fn lemma_write_deterministic<T>(cat: CINTR2CDATA, kind: IntegralKind, ss: Seq<[i32; 2]>, b: int, out1: Seq<T>, out2: Seq<T>, out0: Seq<T>, buf: Seq<T>)
    requires
        packed_written(cat, kind, ss, b, out1, out0, buf),
        packed_written(cat, kind, ss, b, out2, out0, buf),
    ensures
        out1 == out2,
{
    assert forall|m: int| 0 <= m < out1.len() implies out1[m] == out2[m] by {
        if packed_hit(cat, kind, ss, b, m) {
            let (e, c) = choose|e: Seq<int>, c: int| packed_elem(cat, kind, ss, b, e, c) && #[trigger] packed_pos(cat, kind, ss, b, e, c) == m;
            assert(out1[packed_pos(cat, kind, ss, b, e, c)] == buf[block_src(cat, kind, ss, b, e, c)]);
            assert(out2[packed_pos(cat, kind, ss, b, e, c)] == buf[block_src(cat, kind, ss, b, e, c)]);
        }
    }
    assert(out1 =~= out2);
}

/// The kernel's scratch block is no larger than the dense output.
proof fn lemma_block_len_bound(cat: CINTR2CDATA, kind: IntegralKind, ss: Seq<[i32; 2]>, b: int)
    requires
        call_ok(cat, kind, ss),
        0 <= b < n_blocks(ss),
    ensures
        0 <= block_len(cat, kind, ss, b) <= dense_len(cat, kind, ss),
{
    lemma_dims_le_extents(cat, kind, ss, b);
    let nc = kind.n_comp as int;
    let bd = block_dims(cat, ss, b).push(nc);
    let ed = extents(cat, ss).push(nc);
    assert forall|k: int| 0 <= k < bd.len() implies 0 <= #[trigger] bd[k] <= ed[k] by {
        if k < ss.len() {
            assert(bd[k] == block_dims(cat, ss, b)[k]);
        }
    }
    lemma_prod_le(bd, ed);
    lemma_prod_push(extents(cat, ss), nc);
}

/// What `write_block` leaves in the packed output: each kept element of the
/// block at its packed position, and every other position unchanged.
pub open spec fn packed_written<T>(cat: CINTR2CDATA, kind: IntegralKind, ss: Seq<[i32; 2]>, b: int, out1: Seq<T>, out0: Seq<T>, buf: Seq<T>) -> bool {
    &&& out1.len() == out0.len()
    &&& forall|e: Seq<int>, c: int| packed_elem(cat, kind, ss, b, e, c)
        ==> out1[#[trigger] packed_pos(cat, kind, ss, b, e, c)] == buf[block_src(cat, kind, ss, b, e, c)]
    &&& forall|m: int| 0 <= m < out0.len() && !packed_hit(cat, kind, ss, b, m) ==> #[trigger] out1[m] == out0[m]
}

/// With 2 centers a computed block meets what the 3-axis packed copy needs.
proof fn lemma_copy_ok2(cat: CINTR2CDATA, kind: IntegralKind, ss: Seq<[i32; 2]>, b: int, o: Seq<usize>, t: Seq<usize>, d: Seq<usize>, diag: bool, out_len: int, buf_len: int)
    requires
        packed_ok(cat, kind, ss),
        ss.len() == 2,
        0 <= b < n_blocks(ss),
        stored(ss, b),
        extents(cat, ss)[0] * (extents(cat, ss)[0] + 1) <= usize::MAX,
        out_len == packed_len(cat, kind, ss),
        buf_len >= block_len(cat, kind, ss, b),
        ({
            let ao = block_aoff(cat, ss, b);
            let dm = block_dims(cat, ss, b);
            let dd = extents(cat, ss);
            &&& o.len() == 3 && t.len() == 2 && d.len() == 3
            &&& o[0] == ao[0] && o[1] == ao[1] && o[2] == 0
            &&& d[0] == dm[0] && d[1] == dm[1] && d[2] == kind.n_comp
            &&& t[0] == tri(dd[0]) && t[1] == kind.n_comp
            &&& diag == (block_shells(ss, b)[0] == block_shells(ss, b)[1])
        }),
    ensures
        copy3_ok(out_len, o, t, buf_len, d, diag),
{
    lemma_stored_block(cat, kind, ss, b);
    let dd = extents(cat, ss);
    let x = o[1] + d[1];
    let big = dd[0];
    assert(x * x <= big * (big + 1)) by (nonlinear_arith)
        requires
            0 <= x <= big,
    ;
    lemma_tri_mono(x, big);
    let nc = kind.n_comp as int;
    assert(packed_dims(cat, kind, ss) =~= seq![tri(dd[0]), nc]);
    lemma_fidx12(0, 0, tri(dd[0]), nc);
    assert(block_dims(cat, ss, b).push(nc) =~= seq![d[0] as int, d[1] as int, nc]);
    lemma_fidx3(0, 0, 0, d[0] as int, d[1] as int, nc);
}

/// With 2 centers, what the 3-axis packed copy leaves in the output is what
/// `write_block` promises.
proof fn lemma_bridge2<T>(cat: CINTR2CDATA, kind: IntegralKind, ss: Seq<[i32; 2]>, b: int, o: Seq<usize>, t: Seq<usize>, d: Seq<usize>, diag: bool, out1: Seq<T>, out0: Seq<T>, buf: Seq<T>)
    requires
        packed_ok(cat, kind, ss),
        ss.len() == 2,
        0 <= b < n_blocks(ss),
        stored(ss, b),
        ({
            let ao = block_aoff(cat, ss, b);
            let dm = block_dims(cat, ss, b);
            let dd = extents(cat, ss);
            &&& o.len() == 3 && t.len() == 2 && d.len() == 3
            &&& o[0] == ao[0] && o[1] == ao[1] && o[2] == 0
            &&& d[0] == dm[0] && d[1] == dm[1] && d[2] == kind.n_comp
            &&& t[0] == tri(dd[0]) && t[1] == kind.n_comp
            &&& diag == (block_shells(ss, b)[0] == block_shells(ss, b)[1])
        }),
        copied3(out1, out0, o, t, buf, d, diag),
    ensures
        packed_written(cat, kind, ss, b, out1, out0, buf),
{
    let nc = kind.n_comp as int;
    let dd = extents(cat, ss);
    let dm = block_dims(cat, ss, b);
    assert forall|e: Seq<int>, c: int| packed_elem(cat, kind, ss, b, e, c)
        implies out1[#[trigger] packed_pos(cat, kind, ss, b, e, c)] == buf[block_src(cat, kind, ss, b, e, c)] by {
        assert(box3(e[0], e[1], c, d, diag));
        let p = dense_ao(cat, ss, b, e);
        assert(p.subrange(2, p.len() as int).push(c) =~= seq![c]);
        assert(dd.subrange(2, 2).push(nc) =~= seq![nc]);
        lemma_fidx12(c, 0, nc, 0);
        assert(e.push(c) =~= seq![e[0], e[1], c]);
        assert(dm.push(nc) =~= seq![dm[0], dm[1], nc]);
        lemma_fidx3(e[0], e[1], c, dm[0], dm[1], nc);
        assert(tgt3(e[0], e[1], c, o, t) == packed_pos(cat, kind, ss, b, e, c));
    }
    assert forall|m: int| 0 <= m < out0.len() && !packed_hit(cat, kind, ss, b, m) implies #[trigger] out1[m] == out0[m] by {
        if hit3(m, o, t, d, diag) {
            let (x, y, c) = choose|x: int, y: int, c: int| box3(x, y, c, d, diag) && #[trigger] tgt3(x, y, c, o, t) == m;
            let e = seq![x, y];
            assert(in_box(e, dm));
            let p = dense_ao(cat, ss, b, e);
            assert(p.subrange(2, p.len() as int).push(c) =~= seq![c]);
            assert(dd.subrange(2, 2).push(nc) =~= seq![nc]);
            lemma_fidx12(c, 0, nc, 0);
            assert(packed_elem(cat, kind, ss, b, e, c));
            assert(packed_pos(cat, kind, ss, b, e, c) == m);
            assert(packed_hit(cat, kind, ss, b, m));
        }
    }
}

/// With 3 centers a computed block meets what the 4-axis packed copy needs.
proof fn lemma_copy_ok3(cat: CINTR2CDATA, kind: IntegralKind, ss: Seq<[i32; 2]>, b: int, o: Seq<usize>, t: Seq<usize>, d: Seq<usize>, diag: bool, out_len: int, buf_len: int)
    requires
        packed_ok(cat, kind, ss),
        ss.len() == 3,
        0 <= b < n_blocks(ss),
        stored(ss, b),
        extents(cat, ss)[0] * (extents(cat, ss)[0] + 1) <= usize::MAX,
        out_len == packed_len(cat, kind, ss),
        buf_len >= block_len(cat, kind, ss, b),
        ({
            let ao = block_aoff(cat, ss, b);
            let dm = block_dims(cat, ss, b);
            let dd = extents(cat, ss);
            &&& o.len() == 4 && t.len() == 3 && d.len() == 4
            &&& o[0] == ao[0] && o[1] == ao[1] && o[2] == ao[2] && o[3] == 0
            &&& d[0] == dm[0] && d[1] == dm[1] && d[2] == dm[2] && d[3] == kind.n_comp
            &&& t[0] == tri(dd[0]) && t[2] == kind.n_comp
            &&& t[1] == dd[2]
            &&& diag == (block_shells(ss, b)[0] == block_shells(ss, b)[1])
        }),
    ensures
        copy4_ok(out_len, o, t, buf_len, d, diag),
{
    lemma_stored_block(cat, kind, ss, b);
    let dd = extents(cat, ss);
    let x = o[1] + d[1];
    let big = dd[0];
    assert(x * x <= big * (big + 1)) by (nonlinear_arith)
        requires
            0 <= x <= big,
    ;
    lemma_tri_mono(x, big);
    let nc = kind.n_comp as int;
    assert(packed_dims(cat, kind, ss) =~= seq![tri(dd[0]), dd[2], nc]);
    lemma_fidx3(0, 0, 0, tri(dd[0]), dd[2], nc);
    assert(block_dims(cat, ss, b).push(nc) =~= seq![d[0] as int, d[1] as int, d[2] as int, nc]);
    lemma_fidx4(0, 0, 0, 0, d[0] as int, d[1] as int, d[2] as int, nc);
    assert forall|a: int| 0 <= a < 4 implies #[trigger] o[a] + d[a] <= usize::MAX by {
        if a < 3 {
            assert(o[a] + d[a] <= dd[a]);
        }
    }
}

/// With 3 centers, what the 4-axis packed copy leaves in the output is what
/// `write_block` promises.
proof fn lemma_bridge3<T>(cat: CINTR2CDATA, kind: IntegralKind, ss: Seq<[i32; 2]>, b: int, o: Seq<usize>, t: Seq<usize>, d: Seq<usize>, diag: bool, out1: Seq<T>, out0: Seq<T>, buf: Seq<T>)
    requires
        packed_ok(cat, kind, ss),
        ss.len() == 3,
        0 <= b < n_blocks(ss),
        stored(ss, b),
        ({
            let ao = block_aoff(cat, ss, b);
            let dm = block_dims(cat, ss, b);
            let dd = extents(cat, ss);
            &&& o.len() == 4 && t.len() == 3 && d.len() == 4
            &&& o[0] == ao[0] && o[1] == ao[1] && o[2] == ao[2] && o[3] == 0
            &&& d[0] == dm[0] && d[1] == dm[1] && d[2] == dm[2] && d[3] == kind.n_comp
            &&& t[0] == tri(dd[0]) && t[2] == kind.n_comp
            &&& t[1] == dd[2]
            &&& diag == (block_shells(ss, b)[0] == block_shells(ss, b)[1])
        }),
        copied4(out1, out0, o, t, buf, d, diag),
    ensures
        packed_written(cat, kind, ss, b, out1, out0, buf),
{
    let nc = kind.n_comp as int;
    let dd = extents(cat, ss);
    let dm = block_dims(cat, ss, b);
    assert forall|e: Seq<int>, c: int| packed_elem(cat, kind, ss, b, e, c)
        implies out1[#[trigger] packed_pos(cat, kind, ss, b, e, c)] == buf[block_src(cat, kind, ss, b, e, c)] by {
        assert(box4(e[0], e[1], e[2], c, d, diag));
        let p = dense_ao(cat, ss, b, e);
        assert(p.subrange(2, p.len() as int).push(c) =~= seq![p[2], c]);
        assert(dd.subrange(2, 3).push(nc) =~= seq![dd[2], nc]);
        lemma_fidx12(p[2], c, dd[2], nc);
        assert(e.push(c) =~= seq![e[0], e[1], e[2], c]);
        assert(dm.push(nc) =~= seq![dm[0], dm[1], dm[2], nc]);
        lemma_fidx4(e[0], e[1], e[2], c, dm[0], dm[1], dm[2], nc);
        assert(tgt4(e[0], e[1], e[2], c, o, t) == packed_pos(cat, kind, ss, b, e, c));
    }
    assert forall|m: int| 0 <= m < out0.len() && !packed_hit(cat, kind, ss, b, m) implies #[trigger] out1[m] == out0[m] by {
        if hit4(m, o, t, d, diag) {
            let (x, y, z, c) = choose|x: int, y: int, z: int, c: int| box4(x, y, z, c, d, diag) && #[trigger] tgt4(x, y, z, c, o, t) == m;
            let e = seq![x, y, z];
            assert(in_box(e, dm));
            let p = dense_ao(cat, ss, b, e);
            assert(p.subrange(2, p.len() as int).push(c) =~= seq![p[2], c]);
            assert(dd.subrange(2, 3).push(nc) =~= seq![dd[2], nc]);
            lemma_fidx12(p[2], c, dd[2], nc);
            assert(packed_elem(cat, kind, ss, b, e, c));
            assert(packed_pos(cat, kind, ss, b, e, c) == m);
            assert(packed_hit(cat, kind, ss, b, m));
        }
    }
}

/// With 4 centers a computed block meets what the 5-axis packed copy needs.
proof fn lemma_copy_ok4(cat: CINTR2CDATA, kind: IntegralKind, ss: Seq<[i32; 2]>, b: int, o: Seq<usize>, t: Seq<usize>, d: Seq<usize>, diag: bool, out_len: int, buf_len: int)
    requires
        packed_ok(cat, kind, ss),
        ss.len() == 4,
        0 <= b < n_blocks(ss),
        stored(ss, b),
        extents(cat, ss)[0] * (extents(cat, ss)[0] + 1) <= usize::MAX,
        out_len == packed_len(cat, kind, ss),
        buf_len >= block_len(cat, kind, ss, b),
        ({
            let ao = block_aoff(cat, ss, b);
            let dm = block_dims(cat, ss, b);
            let dd = extents(cat, ss);
            &&& o.len() == 5 && t.len() == 4 && d.len() == 5
            &&& o[0] == ao[0] && o[1] == ao[1] && o[2] == ao[2] && o[3] == ao[3] && o[4] == 0
            &&& d[0] == dm[0] && d[1] == dm[1] && d[2] == dm[2] && d[3] == dm[3] && d[4] == kind.n_comp
            &&& t[0] == tri(dd[0]) && t[3] == kind.n_comp
            &&& t[1] == dd[2] && t[2] == dd[3]
            &&& diag == (block_shells(ss, b)[0] == block_shells(ss, b)[1])
        }),
    ensures
        copy5_ok(out_len, o, t, buf_len, d, diag),
{
    lemma_stored_block(cat, kind, ss, b);
    let dd = extents(cat, ss);
    let x = o[1] + d[1];
    let big = dd[0];
    assert(x * x <= big * (big + 1)) by (nonlinear_arith)
        requires
            0 <= x <= big,
    ;
    lemma_tri_mono(x, big);
    let nc = kind.n_comp as int;
    assert(packed_dims(cat, kind, ss) =~= seq![tri(dd[0]), dd[2], dd[3], nc]);
    lemma_fidx4(0, 0, 0, 0, tri(dd[0]), dd[2], dd[3], nc);
    assert(block_dims(cat, ss, b).push(nc) =~= seq![d[0] as int, d[1] as int, d[2] as int, d[3] as int, nc]);
    crate::tensor::lemma_fidx5(0, 0, 0, 0, 0, d[0] as int, d[1] as int, d[2] as int, d[3] as int, nc);
    assert forall|a: int| 0 <= a < 5 implies #[trigger] o[a] + d[a] <= usize::MAX by {
        if a < 4 {
            assert(o[a] + d[a] <= dd[a]);
        }
    }
}

/// With 4 centers, what the 5-axis packed copy leaves in the output is what
/// `write_block` promises.
proof fn lemma_bridge4<T>(cat: CINTR2CDATA, kind: IntegralKind, ss: Seq<[i32; 2]>, b: int, o: Seq<usize>, t: Seq<usize>, d: Seq<usize>, diag: bool, out1: Seq<T>, out0: Seq<T>, buf: Seq<T>)
    requires
        packed_ok(cat, kind, ss),
        ss.len() == 4,
        0 <= b < n_blocks(ss),
        stored(ss, b),
        ({
            let ao = block_aoff(cat, ss, b);
            let dm = block_dims(cat, ss, b);
            let dd = extents(cat, ss);
            &&& o.len() == 5 && t.len() == 4 && d.len() == 5
            &&& o[0] == ao[0] && o[1] == ao[1] && o[2] == ao[2] && o[3] == ao[3] && o[4] == 0
            &&& d[0] == dm[0] && d[1] == dm[1] && d[2] == dm[2] && d[3] == dm[3] && d[4] == kind.n_comp
            &&& t[0] == tri(dd[0]) && t[3] == kind.n_comp
            &&& t[1] == dd[2] && t[2] == dd[3]
            &&& diag == (block_shells(ss, b)[0] == block_shells(ss, b)[1])
        }),
        copied5(out1, out0, o, t, buf, d, diag),
    ensures
        packed_written(cat, kind, ss, b, out1, out0, buf),
{
    let nc = kind.n_comp as int;
    let dd = extents(cat, ss);
    let dm = block_dims(cat, ss, b);
    assert forall|e: Seq<int>, c: int| packed_elem(cat, kind, ss, b, e, c)
        implies out1[#[trigger] packed_pos(cat, kind, ss, b, e, c)] == buf[block_src(cat, kind, ss, b, e, c)] by {
        assert(box5(e[0], e[1], e[2], e[3], c, d, diag));
        let p = dense_ao(cat, ss, b, e);
        assert(p.subrange(2, p.len() as int).push(c) =~= seq![p[2], p[3], c]);
        assert(dd.subrange(2, 4).push(nc) =~= seq![dd[2], dd[3], nc]);
        lemma_fidx3(p[2], p[3], c, dd[2], dd[3], nc);
        assert(e.push(c) =~= seq![e[0], e[1], e[2], e[3], c]);
        assert(dm.push(nc) =~= seq![dm[0], dm[1], dm[2], dm[3], nc]);
        crate::tensor::lemma_fidx5(e[0], e[1], e[2], e[3], c, dm[0], dm[1], dm[2], dm[3], nc);
        assert(tgt5(e[0], e[1], e[2], e[3], c, o, t) == packed_pos(cat, kind, ss, b, e, c));
    }
    assert forall|m: int| 0 <= m < out0.len() && !packed_hit(cat, kind, ss, b, m) implies #[trigger] out1[m] == out0[m] by {
        if hit5(m, o, t, d, diag) {
            let (x, y, z, w, c) = choose|x: int, y: int, z: int, w: int, c: int| box5(x, y, z, w, c, d, diag) && #[trigger] tgt5(x, y, z, w, c, o, t) == m;
            let e = seq![x, y, z, w];
            assert(in_box(e, dm));
            let p = dense_ao(cat, ss, b, e);
            assert(p.subrange(2, p.len() as int).push(c) =~= seq![p[2], p[3], c]);
            assert(dd.subrange(2, 4).push(nc) =~= seq![dd[2], dd[3], nc]);
            lemma_fidx3(p[2], p[3], c, dd[2], dd[3], nc);
            assert(packed_elem(cat, kind, ss, b, e, c));
            assert(packed_pos(cat, kind, ss, b, e, c) == m);
            assert(packed_hit(cat, kind, ss, b, m));
        }
    }
}

/// The blocks of a packed call: the dense blocks whose first shell does not
/// come after their second, each copied from the kernel's scratch block into
/// the packed output.
pub struct PackedPlan {
    dense: DensePlan,
    pairs: usize,
    out_len: usize,
}

impl PackedPlan {
    pub closed spec fn catalog(&self) -> CINTR2CDATA {
        self.dense.catalog()
    }

    pub closed spec fn integral_kind(&self) -> IntegralKind {
        self.dense.integral_kind()
    }

    pub closed spec fn slices(&self) -> Seq<[i32; 2]> {
        self.dense.slices()
    }

    pub closed spec fn wf(&self) -> bool {
        let cat = self.dense.catalog();
        let kind = self.dense.integral_kind();
        let ss = self.dense.slices();
        &&& self.dense.wf()
        &&& packed_ok(cat, kind, ss)
        &&& extents(cat, ss)[0] * (extents(cat, ss)[0] + 1) <= usize::MAX
        &&& self.pairs == tri(extents(cat, ss)[0])
        &&& self.out_len == packed_len(cat, kind, ss)
    }

    /// Number of blocks, stored or not.
    pub fn n_blocks(&self) -> (r: usize)
        requires
            self.wf(),
        ensures
            r == n_blocks(self.slices()),
    {
        self.dense.n_blocks()
    }

    /// Elements of the packed output.
    pub fn out_len(&self) -> (r: usize)
        requires
            self.wf(),
        ensures
            r == packed_len(self.catalog(), self.integral_kind(), self.slices()),
    {
        self.out_len
    }

    /// Shells of block `b`, when the block is computed: its first shell does
    /// not come after its second.
    pub fn block(&self, b: usize) -> (r: Option<Vec<i32>>)
        requires
            self.wf(),
            b < n_blocks(self.slices()),
        ensures
            r is Some <==> stored(self.slices(), b as int),
            r is Some ==> r->0@.len() == self.slices().len()
                && forall|a: int| 0 <= a < self.slices().len() ==> r->0@[a] == block_shells(self.slices(), b as int)[a],
    {
        let (shls, _aoff, _sizes) = self.dense.block_parts(b);
        proof {
            self.dense.lemma_plan();
        }
        if shls[0] <= shls[1] {
            Some(shls)
        } else {
            None
        }
    }

    /// Elements of the kernel's scratch block for block `b`.
    pub fn block_len(&self, b: usize) -> (r: usize)
        requires
            self.wf(),
            b < n_blocks(self.slices()),
        ensures
            r == block_len(self.catalog(), self.integral_kind(), self.slices(), b as int),
    {
        let (_shls, _aoff, sizes) = self.dense.block_parts(b);
        let ghost cat = self.catalog();
        let ghost kind = self.integral_kind();
        let ghost ss = self.slices();
        proof {
            self.dense.lemma_plan();
            lemma_call_ok(cat, kind, ss);
            cat.lemma_wf_counts();
            // a block is no larger than the dense output it lies in
            lemma_block_len_bound(cat, kind, ss, b as int);
        }
        let mut dims = sizes;
        dims.push(self.dense.n_comp());
        proof {
            assert(ints(dims@) =~= block_dims(cat, ss, b as int).push(kind.n_comp as int));
        }
        match checked_prod(&dims) {
            Some(n) => n,
            None => 0,
        }
    }

    /// Copies the kernel's scratch block `buf` for block `b` into the packed output.
    pub fn write_block<T: Copy>(&self, out: &mut [T], b: usize, buf: &[T])
        requires
            self.wf(),
            old(out)@.len() == packed_len(self.catalog(), self.integral_kind(), self.slices()),
            b < n_blocks(self.slices()),
            stored(self.slices(), b as int),
            buf@.len() >= block_len(self.catalog(), self.integral_kind(), self.slices(), b as int),
        ensures
            packed_written(self.catalog(), self.integral_kind(), self.slices(), b as int, final(out)@, old(out)@, buf@),
    {
        let ghost cat = self.catalog();
        let ghost kind = self.integral_kind();
        let ghost ss = self.slices();
        let (shls, aoff, sizes) = self.dense.block_parts(b);
        let ext = self.dense.extents();
        let nc = self.dense.n_comp();
        proof {
            self.dense.lemma_plan();
            lemma_call_ok(cat, kind, ss);
            assert(ints(aoff@).len() == aoff@.len() && ints(sizes@).len() == sizes@.len() && ints(ext@).len() == ext@.len());
        }
        let diag = shls[0] == shls[1];
        let n = shls.len();
        if n == 2 {
            let o = [aoff[0], aoff[1], 0];
            let t = [self.pairs, nc];
            let d = [sizes[0], sizes[1], nc];
            proof {
                lemma_copy_ok2(cat, kind, ss, b as int, o@, t@, d@, diag, old(out)@.len() as int, buf@.len() as int);
            }
            if diag {
                copy_3d_s2ij_diag(out, &o, &t, buf, &d);
            } else {
                copy_3d_s2ij_offdiag(out, &o, &t, buf, &d);
            }
            proof {
                lemma_bridge2(cat, kind, ss, b as int, o@, t@, d@, diag, out@, old(out)@, buf@);
            }
        } else if n == 3 {
            let o = [aoff[0], aoff[1], aoff[2], 0];
            let t = [self.pairs, ext[2], nc];
            let d = [sizes[0], sizes[1], sizes[2], nc];
            proof {
                lemma_copy_ok3(cat, kind, ss, b as int, o@, t@, d@, diag, old(out)@.len() as int, buf@.len() as int);
            }
            if diag {
                copy_4d_s2ij_diag(out, &o, &t, buf, &d);
            } else {
                copy_4d_s2ij_offdiag(out, &o, &t, buf, &d);
            }
            proof {
                lemma_bridge3(cat, kind, ss, b as int, o@, t@, d@, diag, out@, old(out)@, buf@);
            }
        } else {
            let o = [aoff[0], aoff[1], aoff[2], aoff[3], 0];
            let t = [self.pairs, ext[2], ext[3], nc];
            let d = [sizes[0], sizes[1], sizes[2], sizes[3], nc];
            proof {
                lemma_copy_ok4(cat, kind, ss, b as int, o@, t@, d@, diag, old(out)@.len() as int, buf@.len() as int);
            }
            if diag {
                copy_5d_s2ij_diag(out, &o, &t, buf, &d);
            } else {
                copy_5d_s2ij_offdiag(out, &o, &t, buf, &d);
            }
            proof {
                lemma_bridge4(cat, kind, ss, b as int, o@, t@, d@, diag, out@, old(out)@, buf@);
            }
        }
    }
}

impl CINTR2CDATA {
    /// Plans a packed call: validates the slices, requires the first two to be
    /// equal, and sizes the packed output.
    pub fn plan_s2ij(&self, kind: &IntegralKind, shl_slices: &[[i32; 2]]) -> (r: Result<PackedPlan, SliceError>)
        requires
            self.wf(),
            kind.wf(),
        ensures
            match slices_fault(shl_slices@, kind.n_center as int, self.nbas()) {
                Some(e) => r == Err::<PackedPlan, SliceError>(e),
                None => if shl_slices@[0] != shl_slices@[1] {
                    r == Err::<PackedPlan, SliceError>(SliceError::AsymmetricSlice {
                        first_start: shl_slices@[0][0],
                        first_stop: shl_slices@[0][1],
                        second_start: shl_slices@[1][0],
                        second_stop: shl_slices@[1][1],
                    })
                } else if extent(*self, shl_slices@[0]) * (extent(*self, shl_slices@[0]) + 1) > usize::MAX
                    || n_blocks(shl_slices@) > usize::MAX
                    || dense_len(*self, *kind, shl_slices@) > usize::MAX
                    || packed_len(*self, *kind, shl_slices@) > usize::MAX {
                    r == Err::<PackedPlan, SliceError>(SliceError::TooLarge)
                } else {
                    &&& r is Ok
                    &&& r->Ok_0.wf()
                    &&& r->Ok_0.catalog() == *self
                    &&& r->Ok_0.integral_kind() == *kind
                    &&& r->Ok_0.slices() == shl_slices@
                },
            },
    {
        let shape = match self.cgto_shape_s2ij(kind, shl_slices) {
            Ok(shape) => shape,
            Err(e) => {
                return Err(e);
            },
        };
        let dense = match self.plan_s1(kind, shl_slices) {
            Ok(plan) => plan,
            Err(e) => {
                return Err(e);
            },
        };
        let ghost ss = shl_slices@;
        let ghost dd = extents(*self, ss);
        let ext = dense.extents();
        let pairs = shape[0];
        proof {
            lemma_call_ok(*self, *kind, ss);
            assert(ints(ext@).len() == ext@.len());
            assert(ints(ext@)[0] == ext@[0]);
        }
        let mut dims: Vec<usize> = Vec::new();
        dims.push(pairs);
        let mut a: usize = 2;
        while a < ext.len()
            invariant
                2 <= a <= ext@.len(),
                ints(ext@) == dd,
                dd.len() == ss.len(),
                dims@.len() == a - 1,
                dims@[0] == pairs,
                forall|k: int| 1 <= k < a - 1 ==> dims@[k] == dd[k + 1],
            decreases ext@.len() - a,
        {
            proof {
                assert(ints(ext@)[a as int] == ext@[a as int]);
            }
            dims.push(ext[a]);
            a += 1;
        }
        dims.push(kind.n_comp);
        proof {
            assert(ints(dims@) =~= packed_dims(*self, *kind, ss));
        }
        let out_len = match checked_prod(&dims) {
            Some(n) => n,
            None => {
                return Err(SliceError::TooLarge);
            },
        };
        Ok(PackedPlan { dense, pairs, out_len })
    }
}

} // verus!
