//! Dense assembly: the blocks a call is cut into, where the kernel writes
//! each of them, and why those writes neither overlap nor leave gaps.
use vstd::prelude::*;
use crate::basis::{CINTR2CDATA, lemma_loc_mono};
use crate::layout::{lemma_stride_bound, lemma_stride_injective};
use crate::shape::{IntegralKind, SliceError, extent, slices_fault, lemma_no_fault};
use crate::tensor::{fidx, prod, in_box, unfidx, shell_of, ints, checked_prod, lemma_prod_nonneg, lemma_prod_zero, lemma_prod_suffix_le, lemma_fidx_bound, lemma_fidx_injective, lemma_unfidx, lemma_shell_of, lemma_shell_unique};

verus! {

/// The inputs of an assembly call that the engine accepts.
pub open spec fn call_ok(cat: CINTR2CDATA, kind: IntegralKind, ss: Seq<[i32; 2]>) -> bool {
    &&& cat.wf()
    &&& kind.wf()
    &&& slices_fault(ss, kind.n_center as int, cat.nbas()).is_none()
}

/// Shells per axis.
pub open spec fn counts(ss: Seq<[i32; 2]>) -> Seq<int> {
    Seq::new(ss.len(), |a: int| ss[a][1] - ss[a][0])
}

/// Basis functions per axis.
pub open spec fn extents(cat: CINTR2CDATA, ss: Seq<[i32; 2]>) -> Seq<int> {
    Seq::new(ss.len(), |a: int| extent(cat, ss[a]))
}

/// Number of blocks: one per combination of shells.
pub open spec fn n_blocks(ss: Seq<[i32; 2]>) -> int {
    prod(counts(ss))
}

/// Elements of the dense output.
pub open spec fn dense_len(cat: CINTR2CDATA, kind: IntegralKind, ss: Seq<[i32; 2]>) -> int {
    prod(extents(cat, ss)) * kind.n_comp
}

/// Shells of block `b`; blocks are numbered column-major over the shells of each slice.
pub open spec fn block_shells(ss: Seq<[i32; 2]>, b: int) -> Seq<int> {
    Seq::new(ss.len(), |a: int| ss[a][0] + unfidx(b, counts(ss))[a])
}

/// Basis functions of block `b` along each axis.
pub open spec fn block_dims(cat: CINTR2CDATA, ss: Seq<[i32; 2]>, b: int) -> Seq<int> {
    Seq::new(ss.len(), |a: int| cat.size(block_shells(ss, b)[a]))
}

/// Position of block `b` along each axis of the output.
pub open spec fn block_aoff(cat: CINTR2CDATA, ss: Seq<[i32; 2]>, b: int) -> Seq<int> {
    Seq::new(ss.len(), |a: int| cat.loc(block_shells(ss, b)[a]) - cat.loc(ss[a][0] as int))
}

/// Offset of block `b` in the dense output: where the kernel starts writing it.
pub open spec fn block_offset(cat: CINTR2CDATA, ss: Seq<[i32; 2]>, b: int) -> int {
    fidx(block_aoff(cat, ss, b), extents(cat, ss))
}

/// Elementwise sum of two multi-indices.
pub open spec fn shift(p: Seq<int>, q: Seq<int>) -> Seq<int> {
    Seq::new(p.len(), |a: int| p[a] + q[a])
}

/// Basis-function index of element `i` of block `b` along each axis.
pub open spec fn dense_ao(cat: CINTR2CDATA, ss: Seq<[i32; 2]>, b: int, i: Seq<int>) -> Seq<int> {
    shift(block_aoff(cat, ss, b), i)
}

/// Where component `c` of element `i` of block `b` lies in the dense output.
pub open spec fn dense_pos(cat: CINTR2CDATA, ss: Seq<[i32; 2]>, b: int, i: Seq<int>, c: int) -> int {
    fidx(dense_ao(cat, ss, b, i), extents(cat, ss)) + prod(extents(cat, ss)) * c
}

/// Component `c` of element `i` of block `b` exists.
pub open spec fn dense_elem(cat: CINTR2CDATA, kind: IntegralKind, ss: Seq<[i32; 2]>, b: int, i: Seq<int>, c: int) -> bool {
    &&& 0 <= b < n_blocks(ss)
    &&& in_box(i, block_dims(cat, ss, b))
    &&& 0 <= c < kind.n_comp
}

/// The slices of the whole basis, one per center.
pub open spec fn full_slices(cat: CINTR2CDATA, n_center: int) -> Seq<[i32; 2]> {
    Seq::new(n_center as nat, |a: int| [0i32, cat.nbas() as i32])
}

/// Column-major offsets are linear in the multi-index.
pub proof fn lemma_fidx_add(p: Seq<int>, q: Seq<int>, d: Seq<int>)
    requires
        p.len() == q.len(),
        q.len() == d.len(),
    ensures
        fidx(shift(p, q), d) == fidx(p, d) + fidx(q, d),
    decreases p.len(),
{
    if p.len() > 0 {
        assert(shift(p, q).drop_first() =~= shift(p.drop_first(), q.drop_first()));
        lemma_fidx_add(p.drop_first(), q.drop_first(), d.drop_first());
        let x = fidx(p.drop_first(), d.drop_first());
        let y = fidx(q.drop_first(), d.drop_first());
        assert(d[0] * (x + y) == d[0] * x + d[0] * y) by (nonlinear_arith);
    }
}

/// What an accepted call says about its slices and shape.
pub proof fn lemma_call_ok(cat: CINTR2CDATA, kind: IntegralKind, ss: Seq<[i32; 2]>)
    requires
        call_ok(cat, kind, ss),
    ensures
        ss.len() == kind.n_center,
        forall|a: int| 0 <= a < ss.len() ==> 0 <= #[trigger] ss[a][0] <= ss[a][1] <= cat.nbas(),
        forall|a: int| 0 <= a < ss.len() ==> 0 <= #[trigger] counts(ss)[a],
        forall|a: int| 0 <= a < ss.len() ==> 0 <= #[trigger] extents(cat, ss)[a],
        0 <= prod(extents(cat, ss)),
        0 <= prod(counts(ss)),
{
    lemma_no_fault(ss, cat.nbas(), 0);
    cat.lemma_wf_counts();
    assert forall|a: int| 0 <= a < ss.len() implies 0 <= #[trigger] extents(cat, ss)[a] by {
        lemma_loc_mono(cat.ty(), cat.bas(), cat.nbas(), ss[a][0] as int, ss[a][1] as int);
    }
    lemma_prod_nonneg(extents(cat, ss));
    lemma_prod_nonneg(counts(ss));
}

/// The shells of a block lie in the slices.
pub proof fn lemma_block_shells(cat: CINTR2CDATA, kind: IntegralKind, ss: Seq<[i32; 2]>, b: int)
    requires
        call_ok(cat, kind, ss),
        0 <= b < n_blocks(ss),
    ensures
        forall|a: int| 0 <= a < ss.len() ==> ss[a][0] <= #[trigger] block_shells(ss, b)[a] < ss[a][1],
{
    lemma_call_ok(cat, kind, ss);
    lemma_unfidx(b, counts(ss));
    assert forall|a: int| 0 <= a < ss.len() implies ss[a][0] <= #[trigger] block_shells(ss, b)[a] < ss[a][1] by {
        assert(0 <= unfidx(b, counts(ss))[a] < counts(ss)[a]);
    }
}

/// A block spans no more basis functions than its slices along any axis.
pub proof fn lemma_dims_le_extents(cat: CINTR2CDATA, kind: IntegralKind, ss: Seq<[i32; 2]>, b: int)
    requires
        call_ok(cat, kind, ss),
        0 <= b < n_blocks(ss),
    ensures
        forall|a: int| 0 <= a < ss.len() ==> 0 <= #[trigger] block_dims(cat, ss, b)[a] <= extents(cat, ss)[a],
{
    lemma_block_shells(cat, kind, ss, b);
    lemma_call_ok(cat, kind, ss);
    cat.lemma_wf_counts();
    assert forall|a: int| 0 <= a < ss.len() implies 0 <= #[trigger] block_dims(cat, ss, b)[a] <= extents(cat, ss)[a] by {
        let s = block_shells(ss, b)[a];
        cat.lemma_wf(s);
        lemma_loc_mono(cat.ty(), cat.bas(), cat.nbas(), ss[a][0] as int, s);
        lemma_loc_mono(cat.ty(), cat.bas(), cat.nbas(), s + 1, ss[a][1] as int);
    }
}

/// The shells of a block lie in the slices, and its elements in the output.
pub proof fn lemma_block(cat: CINTR2CDATA, kind: IntegralKind, ss: Seq<[i32; 2]>, b: int, i: Seq<int>)
    requires
        call_ok(cat, kind, ss),
        0 <= b < n_blocks(ss),
        in_box(i, block_dims(cat, ss, b)),
    ensures
        in_box(unfidx(b, counts(ss)), counts(ss)),
        forall|a: int| 0 <= a < ss.len() ==> ss[a][0] <= #[trigger] block_shells(ss, b)[a] < ss[a][1],
        in_box(dense_ao(cat, ss, b, i), extents(cat, ss)),
{
    lemma_call_ok(cat, kind, ss);
    cat.lemma_wf_counts();
    lemma_unfidx(b, counts(ss));
    let p = dense_ao(cat, ss, b, i);
    assert forall|a: int| 0 <= a < p.len() implies 0 <= #[trigger] p[a] < extents(cat, ss)[a] by {
        let s = block_shells(ss, b)[a];
        assert(unfidx(b, counts(ss))[a] < counts(ss)[a]);
        cat.lemma_wf(s);
        lemma_loc_mono(cat.ty(), cat.bas(), cat.nbas(), ss[a][0] as int, s);
        lemma_loc_mono(cat.ty(), cat.bas(), cat.nbas(), s + 1, ss[a][1] as int);
        assert(i[a] < block_dims(cat, ss, b)[a]);
    }
}

/// Elements of the dense output fall inside it.
pub proof fn lemma_dense_bound(cat: CINTR2CDATA, kind: IntegralKind, ss: Seq<[i32; 2]>, b: int, i: Seq<int>, c: int)
    requires
        call_ok(cat, kind, ss),
        dense_elem(cat, kind, ss, b, i, c),
    ensures
        0 <= dense_pos(cat, ss, b, i, c) < dense_len(cat, kind, ss),
{
    lemma_block(cat, kind, ss, b, i);
    lemma_fidx_bound(dense_ao(cat, ss, b, i), extents(cat, ss));
    lemma_stride_bound(fidx(dense_ao(cat, ss, b, i), extents(cat, ss)), c, prod(extents(cat, ss)), kind.n_comp as int);
    let pr = prod(extents(cat, ss));
    assert(pr * kind.n_comp == kind.n_comp * pr) by (nonlinear_arith);
}

/// The kernel, handed the offset of block `b` and the full extents as
/// strides, puts component `c` of element `i` at the element's dense position.
pub proof fn lemma_kernel_write(cat: CINTR2CDATA, kind: IntegralKind, ss: Seq<[i32; 2]>, b: int, i: Seq<int>, c: int)
    requires
        call_ok(cat, kind, ss),
        dense_elem(cat, kind, ss, b, i, c),
    ensures
        block_offset(cat, ss, b) + fidx(i, extents(cat, ss)) + prod(extents(cat, ss)) * c
            == dense_pos(cat, ss, b, i, c),
{
    lemma_fidx_add(block_aoff(cat, ss, b), i, extents(cat, ss));
}

/// Dense assembly writes each position of the output at most once: two
/// elements of blocks that land on the same position are the same element of
/// the same block. Concurrent writers, one per block, never collide.
pub proof fn lemma_dense_disjoint(
    cat: CINTR2CDATA,
    kind: IntegralKind,
    ss: Seq<[i32; 2]>,
    b1: int,
    i1: Seq<int>,
    c1: int,
    b2: int,
    i2: Seq<int>,
    c2: int,
)
    requires
        call_ok(cat, kind, ss),
        dense_elem(cat, kind, ss, b1, i1, c1),
        dense_elem(cat, kind, ss, b2, i2, c2),
        dense_pos(cat, ss, b1, i1, c1) == dense_pos(cat, ss, b2, i2, c2),
    ensures
        b1 == b2,
        i1 == i2,
        c1 == c2,
{
    lemma_call_ok(cat, kind, ss);
    cat.lemma_wf_counts();
    let d = extents(cat, ss);
    let pa = dense_ao(cat, ss, b1, i1);
    let pb = dense_ao(cat, ss, b2, i2);
    lemma_block(cat, kind, ss, b1, i1);
    lemma_block(cat, kind, ss, b2, i2);
    lemma_fidx_bound(pa, d);
    lemma_fidx_bound(pb, d);
    lemma_stride_injective(fidx(pa, d), c1, fidx(pb, d), c2, prod(d));
    lemma_fidx_injective(pa, pb, d);
    let u1 = unfidx(b1, counts(ss));
    let u2 = unfidx(b2, counts(ss));
    assert forall|a: int| 0 <= a < ss.len() implies u1[a] == u2[a] && i1[a] == i2[a] by {
        let s1 = block_shells(ss, b1)[a];
        let s2 = block_shells(ss, b2)[a];
        let x = cat.loc(ss[a][0] as int) + pa[a];
        assert(pa[a] == pb[a]);
        assert(i1[a] < block_dims(cat, ss, b1)[a]);
        assert(i2[a] < block_dims(cat, ss, b2)[a]);
        cat.lemma_wf(s1);
        cat.lemma_wf(s2);
        lemma_shell_unique(cat, s1, s2, x);
    }
    assert(u1 =~= u2);
    assert(i1 =~= i2);
    lemma_call_ok(cat, kind, ss);
    lemma_unfidx(b1, counts(ss));
    lemma_unfidx(b2, counts(ss));
}

/// Dense assembly leaves no gap: every position of the output receives some
/// component of some element of some block.
pub proof fn lemma_dense_cover(cat: CINTR2CDATA, kind: IntegralKind, ss: Seq<[i32; 2]>, n: int)
    requires
        call_ok(cat, kind, ss),
        0 <= n < dense_len(cat, kind, ss),
    ensures
        exists|b: int, i: Seq<int>, c: int|
            dense_elem(cat, kind, ss, b, i, c) && #[trigger] dense_pos(cat, ss, b, i, c) == n,
{
    lemma_call_ok(cat, kind, ss);
    let d = extents(cat, ss);
    let pr = prod(d);
    let nc = kind.n_comp as int;
    assert(pr > 0) by (nonlinear_arith)
        requires
            0 <= n < pr * nc,
            0 <= pr,
    ;
    assert(0 <= n % pr < pr && 0 <= n / pr < nc && n == n % pr + pr * (n / pr)) by (nonlinear_arith)
        requires
            0 <= n < pr * nc,
            pr > 0,
    ;
    let c = n / pr;
    let r = n % pr;
    lemma_unfidx(r, d);
    let p = unfidx(r, d);
    // the shell holding each basis function, and the function's place in it
    let sh = Seq::new(ss.len(), |a: int| shell_of(cat, ss[a][0] as int, ss[a][1] as int, cat.loc(ss[a][0] as int) + p[a]));
    let idx = Seq::new(ss.len(), |a: int| sh[a] - ss[a][0]);
    let i = Seq::new(ss.len(), |a: int| cat.loc(ss[a][0] as int) + p[a] - cat.loc(sh[a]));
    assert forall|a: int| 0 <= a < ss.len() implies
        ss[a][0] <= #[trigger] sh[a] < ss[a][1]
        && cat.loc(sh[a]) <= cat.loc(ss[a][0] as int) + p[a] < cat.loc(sh[a] + 1) by {
        assert(p[a] < d[a]);
        lemma_shell_of(cat, ss[a][0] as int, ss[a][1] as int, cat.loc(ss[a][0] as int) + p[a]);
    }
    assert(in_box(idx, counts(ss)));
    lemma_fidx_bound(idx, counts(ss));
    let b = fidx(idx, counts(ss));
    lemma_unfidx(b, counts(ss));
    lemma_fidx_injective(unfidx(b, counts(ss)), idx, counts(ss));
    assert(block_shells(ss, b) =~= sh);
    assert forall|a: int| 0 <= a < ss.len() implies 0 <= #[trigger] i[a] < block_dims(cat, ss, b)[a] by {
        cat.lemma_wf(sh[a]);
    }
    assert(dense_ao(cat, ss, b, i) =~= p);
    assert(dense_elem(cat, kind, ss, b, i, c));
    assert(dense_pos(cat, ss, b, i, c) == n);
}

/// A block of a sliced call is a block of the call over all shells with the
/// same shells, and each of its elements sits at the same basis functions
/// shifted by the offsets of the slice starts: the tensor over the slices is
/// the sub-tensor of the full one.
pub proof fn lemma_slice_of_full(cat: CINTR2CDATA, kind: IntegralKind, ss: Seq<[i32; 2]>, b: int, i: Seq<int>, c: int)
    requires
        call_ok(cat, kind, ss),
        dense_elem(cat, kind, ss, b, i, c),
    ensures
        ({
            let full = full_slices(cat, kind.n_center as int);
            let bf = fidx(block_shells(ss, b), counts(full));
            &&& call_ok(cat, kind, full)
            &&& dense_elem(cat, kind, full, bf, i, c)
            &&& block_shells(full, bf) == block_shells(ss, b)
            &&& dense_ao(cat, full, bf, i)
                == shift(dense_ao(cat, ss, b, i), Seq::new(ss.len(), |a: int| cat.loc(ss[a][0] as int)))
        }),
{
    let full = full_slices(cat, kind.n_center as int);
    lemma_call_ok(cat, kind, ss);
    cat.lemma_wf_counts();
    lemma_full_ok(cat, kind, full, 0);
    assert(call_ok(cat, kind, full));
    lemma_block(cat, kind, ss, b, i);
    let sh = block_shells(ss, b);
    assert(in_box(sh, counts(full)));
    lemma_fidx_bound(sh, counts(full));
    let bf = fidx(sh, counts(full));
    lemma_call_ok(cat, kind, full);
    lemma_unfidx(bf, counts(full));
    lemma_fidx_injective(unfidx(bf, counts(full)), sh, counts(full));
    assert(block_shells(full, bf) =~= sh);
    assert(block_dims(cat, full, bf) =~= block_dims(cat, ss, b));
    assert(dense_ao(cat, full, bf, i)
        =~= shift(dense_ao(cat, ss, b, i), Seq::new(ss.len(), |a: int| cat.loc(ss[a][0] as int))));
}

proof fn lemma_full_ok(cat: CINTR2CDATA, kind: IntegralKind, full: Seq<[i32; 2]>, from: int)
    requires
        cat.wf(),
        0 <= from,
        full == full_slices(cat, kind.n_center as int),
    ensures
        crate::shape::first_slice_fault(full, cat.nbas(), from).is_none(),
    decreases full.len() - from,
{
    cat.lemma_wf_counts();
    if from < full.len() {
        lemma_full_ok(cat, kind, full, from + 1);
    }
}

/// The output of a call is the sub-region of a larger column-major tensor of
/// extents `outer` that starts at `origin`; the component axis follows.
pub open spec fn embed_ok(cat: CINTR2CDATA, ss: Seq<[i32; 2]>, outer: Seq<int>, origin: Seq<int>) -> bool {
    &&& outer.len() == ss.len() && origin.len() == ss.len()
    &&& forall|a: int| 0 <= a < ss.len() ==> 0 <= #[trigger] origin[a] && origin[a] + extents(cat, ss)[a] <= outer[a]
}

/// Where component `c` of element `i` of block `b` lies in the larger tensor.
pub open spec fn embedded_pos(cat: CINTR2CDATA, ss: Seq<[i32; 2]>, b: int, i: Seq<int>, c: int, outer: Seq<int>, origin: Seq<int>) -> int {
    fidx(shift(origin, dense_ao(cat, ss, b, i)), outer) + prod(outer) * c
}

/// Offset of block `b` in the larger tensor.
pub open spec fn embedded_offset(cat: CINTR2CDATA, ss: Seq<[i32; 2]>, b: int, outer: Seq<int>, origin: Seq<int>) -> int {
    fidx(shift(origin, block_aoff(cat, ss, b)), outer)
}

/// Writing into a larger tensor: the kernel, handed the block's offset there
/// and the larger extents as strides, puts each element inside the larger
/// tensor, within the sub-region `origin .. origin + extents` of the call, at
/// the position of its basis functions shifted by `origin`.
pub proof fn lemma_embedded_write(cat: CINTR2CDATA, kind: IntegralKind, ss: Seq<[i32; 2]>, b: int, i: Seq<int>, c: int, outer: Seq<int>, origin: Seq<int>)
    requires
        call_ok(cat, kind, ss),
        dense_elem(cat, kind, ss, b, i, c),
        embed_ok(cat, ss, outer, origin),
    ensures
        embedded_offset(cat, ss, b, outer, origin) + fidx(i, outer) + prod(outer) * c
            == embedded_pos(cat, ss, b, i, c, outer, origin),
        in_box(shift(origin, dense_ao(cat, ss, b, i)), outer),
        forall|a: int| 0 <= a < ss.len() ==> origin[a] <= #[trigger] shift(origin, dense_ao(cat, ss, b, i))[a] < origin[a] + extents(cat, ss)[a],
        0 <= embedded_pos(cat, ss, b, i, c, outer, origin) < prod(outer) * kind.n_comp,
{
    lemma_block(cat, kind, ss, b, i);
    let p = dense_ao(cat, ss, b, i);
    let q = shift(origin, p);
    assert(shift(origin, block_aoff(cat, ss, b)).len() == i.len());
    lemma_fidx_add(shift(origin, block_aoff(cat, ss, b)), i, outer);
    assert(shift(shift(origin, block_aoff(cat, ss, b)), i) =~= q);
    assert forall|a: int| 0 <= a < q.len() implies 0 <= #[trigger] q[a] < outer[a] by {
        assert(0 <= p[a] < extents(cat, ss)[a]);
    }
    lemma_fidx_bound(q, outer);
    lemma_stride_bound(fidx(q, outer), c, prod(outer), kind.n_comp as int);
    let po = prod(outer);
    assert(po * kind.n_comp == kind.n_comp * po) by (nonlinear_arith);
}

/// Writing into a larger tensor, two elements of blocks never share a position.
pub proof fn lemma_embedded_disjoint(
    cat: CINTR2CDATA,
    kind: IntegralKind,
    ss: Seq<[i32; 2]>,
    outer: Seq<int>,
    origin: Seq<int>,
    b1: int,
    i1: Seq<int>,
    c1: int,
    b2: int,
    i2: Seq<int>,
    c2: int,
)
    requires
        call_ok(cat, kind, ss),
        embed_ok(cat, ss, outer, origin),
        dense_elem(cat, kind, ss, b1, i1, c1),
        dense_elem(cat, kind, ss, b2, i2, c2),
        embedded_pos(cat, ss, b1, i1, c1, outer, origin) == embedded_pos(cat, ss, b2, i2, c2, outer, origin),
    ensures
        b1 == b2,
        i1 == i2,
        c1 == c2,
{
    lemma_embedded_write(cat, kind, ss, b1, i1, c1, outer, origin);
    lemma_embedded_write(cat, kind, ss, b2, i2, c2, outer, origin);
    let qa = shift(origin, dense_ao(cat, ss, b1, i1));
    let qb = shift(origin, dense_ao(cat, ss, b2, i2));
    lemma_fidx_bound(qa, outer);
    lemma_fidx_bound(qb, outer);
    lemma_stride_injective(fidx(qa, outer), c1, fidx(qb, outer), c2, prod(outer));
    lemma_fidx_injective(qa, qb, outer);
    let pa = dense_ao(cat, ss, b1, i1);
    let pb = dense_ao(cat, ss, b2, i2);
    assert forall|a: int| 0 <= a < pa.len() implies pa[a] == pb[a] by {
        assert(qa[a] == qb[a]);
    }
    assert(pa =~= pb);
    lemma_call_ok(cat, kind, ss);
    lemma_dense_disjoint(cat, kind, ss, b1, i1, c1, b2, i2, c2);
}

/// The blocks of a dense call and where each of them goes: built once per
/// call from validated slices, then read by every worker.
pub struct DensePlan {
    starts: Vec<i32>,
    counts: Vec<usize>,
    extents: Vec<usize>,
    locs_rel: Vec<Vec<usize>>,
    n_comp: usize,
    n_blocks: usize,
    out_len: usize,
    cat: Ghost<CINTR2CDATA>,
    kind: Ghost<IntegralKind>,
    ss: Ghost<Seq<[i32; 2]>>,
}

impl DensePlan {
    pub closed spec fn catalog(&self) -> CINTR2CDATA {
        self.cat@
    }

    pub closed spec fn integral_kind(&self) -> IntegralKind {
        self.kind@
    }

    pub closed spec fn slices(&self) -> Seq<[i32; 2]> {
        self.ss@
    }

    pub closed spec fn wf(&self) -> bool {
        let cat = self.cat@;
        let ss = self.ss@;
        &&& call_ok(cat, self.kind@, ss)
        &&& self.n_comp == self.kind@.n_comp
        &&& self.n_blocks == n_blocks(ss)
        &&& self.out_len == dense_len(cat, self.kind@, ss)
        &&& self.starts@.len() == ss.len()
        &&& self.counts@.len() == ss.len()
        &&& self.extents@.len() == ss.len()
        &&& self.locs_rel@.len() == ss.len()
        &&& forall|a: int| 0 <= a < ss.len() ==> #[trigger] self.starts@[a] == ss[a][0]
        &&& ints(self.counts@) == counts(ss)
        &&& ints(self.extents@) == extents(cat, ss)
        &&& forall|a: int| 0 <= a < ss.len() ==> (#[trigger] self.locs_rel@[a])@.len() == counts(ss)[a] + 1
        &&& forall|a: int, t: int| 0 <= a < ss.len() && 0 <= t <= counts(ss)[a]
            ==> #[trigger] self.locs_rel@[a]@[t] == cat.loc(ss[a][0] + t) - cat.loc(ss[a][0] as int)
    }

    /// What a plan says about its call.
    pub proof fn lemma_plan(&self)
        requires
            self.wf(),
        ensures
            call_ok(self.catalog(), self.integral_kind(), self.slices()),
            dense_len(self.catalog(), self.integral_kind(), self.slices()) <= usize::MAX,
            n_blocks(self.slices()) <= usize::MAX,
    {
    }

    /// Components per block.
    pub fn n_comp(&self) -> (r: usize)
        requires
            self.wf(),
        ensures
            r == self.integral_kind().n_comp,
    {
        self.n_comp
    }

    /// Extents of the output along the basis-function axes.
    pub fn extents(&self) -> (r: Vec<usize>)
        requires
            self.wf(),
        ensures
            ints(r@) == extents(self.catalog(), self.slices()),
    {
        self.extents.clone()
    }

    /// Number of blocks.
    pub fn n_blocks(&self) -> (r: usize)
        requires
            self.wf(),
        ensures
            r == n_blocks(self.slices()),
    {
        self.n_blocks
    }

    /// Elements of the dense output.
    pub fn out_len(&self) -> (r: usize)
        requires
            self.wf(),
        ensures
            r == dense_len(self.catalog(), self.integral_kind(), self.slices()),
    {
        self.out_len
    }

    /// Extents of the output along the basis-function axes, as the kernel reads them.
    pub fn dims(&self) -> (r: Vec<i32>)
        requires
            self.wf(),
        ensures
            r@.len() == self.slices().len(),
            forall|a: int| 0 <= a < r@.len() ==> r@[a] == extents(self.catalog(), self.slices())[a],
    {
        let mut r: Vec<i32> = Vec::new();
        let mut a: usize = 0;
        while a < self.extents.len()
            invariant
                self.wf(),
                a <= self.extents@.len(),
                r@.len() == a,
                forall|b: int| 0 <= b < a ==> r@[b] == extents(self.cat@, self.ss@)[b],
            decreases self.extents@.len() - a,
        {
            proof {
                assert(ints(self.extents@)[a as int] == self.extents@[a as int]);
                let sl = self.ss@[a as int];
                lemma_call_ok(self.cat@, self.kind@, self.ss@);
                self.cat@.lemma_wf(sl[1] as int);
                self.cat@.lemma_wf(sl[0] as int);
            }
            r.push(self.extents[a] as i32);
            a += 1;
        }
        r
    }

    /// Shells of block `b`, its position along each axis of the output, and
    /// its basis functions along each axis.
    pub fn block_parts(&self, b: usize) -> (r: (Vec<i32>, Vec<usize>, Vec<usize>))
        requires
            self.wf(),
            b < n_blocks(self.slices()),
        ensures
            r.0@.len() == self.slices().len(),
            forall|a: int| 0 <= a < r.0@.len() ==> r.0@[a] == block_shells(self.slices(), b as int)[a],
            ints(r.1@) == block_aoff(self.catalog(), self.slices(), b as int),
            ints(r.2@) == block_dims(self.catalog(), self.slices(), b as int),
    {
        let ghost cat = self.cat@;
        let ghost ss = self.ss@;
        let ghost nn = counts(ss);
        let ghost n = ss.len() as int;
        proof {
            lemma_call_ok(cat, self.kind@, ss);
            cat.lemma_wf_counts();
            assert forall|a: int| 0 <= a < n implies 1 <= #[trigger] nn[a] by {
                if nn[a] < 1 {
                    lemma_prod_zero(nn, a);
                }
            }
            assert(nn.subrange(0, n) =~= nn);
        }
        let mut rem = b;
        let mut shls: Vec<i32> = Vec::new();
        let mut aoff: Vec<usize> = Vec::new();
        let mut sizes: Vec<usize> = Vec::new();
        let ghost mut idx: Seq<int> = seq![];
        let mut a: usize = 0;
        while a < self.counts.len()
            invariant
                self.wf(),
                cat == self.cat@, ss == self.ss@, nn == counts(ss), n == ss.len(),
                forall|c: int| 0 <= c < n ==> 1 <= #[trigger] nn[c],
                forall|c: int| 0 <= c < n ==> 0 <= #[trigger] ss[c][0] <= ss[c][1] <= cat.nbas(),
                cat.wf(),
                a <= n,
                idx.len() == a,
                unfidx(b as int, nn) == idx + unfidx(rem as int, nn.subrange(a as int, n)),
                shls@.len() == a,
                aoff@.len() == a,
                sizes@.len() == a,
                forall|c: int| 0 <= c < a ==> 0 <= #[trigger] idx[c] < nn[c],
                forall|c: int| 0 <= c < a ==> #[trigger] shls@[c] == ss[c][0] + idx[c],
                forall|c: int| 0 <= c < a ==> #[trigger] aoff@[c] == cat.loc(ss[c][0] + idx[c]) - cat.loc(ss[c][0] as int),
                forall|c: int| 0 <= c < a ==> #[trigger] sizes@[c] == cat.size(ss[c][0] + idx[c]),
            decreases n - a,
        {
            let na = self.counts[a];
            proof {
                assert(ints(self.counts@)[a as int] == na);
                let sub = nn.subrange(a as int, n);
                assert(sub.drop_first() =~= nn.subrange(a + 1, n));
                assert(sub[0] == na);
            }
            let t = rem % na;
            proof {
                idx = idx.push(t as int);
                assert(unfidx(b as int, nn) =~= idx + unfidx((rem / na) as int, nn.subrange(a + 1, n)));
            }
            shls.push(self.starts[a] + t as i32);
            let lo = self.locs_rel[a][t];
            let hi = self.locs_rel[a][t + 1];
            proof {
                let s = ss[a as int][0] + t;
                cat.lemma_wf(s);
                assert(self.locs_rel@[a as int]@[t as int] == cat.loc(ss[a as int][0] + t) - cat.loc(ss[a as int][0] as int));
                assert(self.locs_rel@[a as int]@[t + 1] == cat.loc(ss[a as int][0] + (t + 1)) - cat.loc(ss[a as int][0] as int));
            }
            aoff.push(lo);
            sizes.push(hi - lo);
            rem = rem / na;
            a += 1;
        }
        proof {
            assert(nn.subrange(n, n) =~= Seq::<int>::empty());
            assert(unfidx(b as int, nn) =~= idx);
            assert forall|c: int| 0 <= c < n implies #[trigger] block_shells(ss, b as int)[c] == ss[c][0] + idx[c] by {}
            assert(ints(aoff@) =~= block_aoff(cat, ss, b as int));
            assert(ints(sizes@) =~= block_dims(cat, ss, b as int));
        }
        (shls, aoff, sizes)
    }

    /// Shells of block `b`, and the offset in the dense output at which the
    /// kernel writes it (first axis fastest, full extents as strides, the
    /// components `dense_len / n_comp` apart); no offset when the block holds
    /// no basis function.
    pub fn block(&self, b: usize) -> (r: (Vec<i32>, Option<usize>))
        requires
            self.wf(),
            b < n_blocks(self.slices()),
        ensures
            r.0@.len() == self.slices().len(),
            forall|a: int| 0 <= a < r.0@.len() ==> r.0@[a] == block_shells(self.slices(), b as int)[a],
            r.1 is None <==> exists|a: int| 0 <= a < self.slices().len()
                && #[trigger] block_dims(self.catalog(), self.slices(), b as int)[a] == 0,
            r.1 is Some ==> r.1->0 == block_offset(self.catalog(), self.slices(), b as int),
    {
        let ghost cat = self.cat@;
        let ghost ss = self.ss@;
        let ghost n = ss.len() as int;
        let (shls, aoff, sizes) = self.block_parts(b);
        let ghost dims = block_dims(cat, ss, b as int);
        assert(sizes@.len() == ints(sizes@).len());
        let mut a: usize = 0;
        while a < sizes.len()
            invariant
                self.wf(),
                cat == self.cat@, ss == self.ss@, n == ss.len(),
                dims == block_dims(cat, ss, b as int),
                a <= sizes@.len(),
                sizes@.len() == n,
                ints(sizes@) == dims,
                shls@.len() == n,
                forall|c: int| 0 <= c < n ==> shls@[c] == block_shells(ss, b as int)[c],
                forall|c: int| 0 <= c < a ==> #[trigger] dims[c] != 0,
            decreases sizes@.len() - a,
        {
            if sizes[a] == 0 {
                proof {
                    assert(dims[a as int] == 0);
                    assert(self.catalog() == cat && self.slices() == ss);
                    assert(exists|c: int| 0 <= c < self.slices().len()
                        && #[trigger] block_dims(self.catalog(), self.slices(), b as int)[c] == 0);
                }
                return (shls, None);
            }
            proof {
                assert(ints(sizes@)[a as int] == sizes@[a as int]);
            }
            a += 1;
        }
        let ghost d = extents(cat, ss);
        let ghost p = block_aoff(cat, ss, b as int);
        proof {
            lemma_call_ok(cat, self.kind@, ss);
            cat.lemma_wf_counts();
            assert forall|c: int| 0 <= c < n implies 0 <= #[trigger] p[c] < d[c] && 1 <= d[c] by {
                let s = block_shells(ss, b as int)[c];
                assert(dims[c] != 0);
                assert(in_box(Seq::new(n as nat, |x: int| 0int), dims));
                lemma_block(cat, self.kind@, ss, b as int, Seq::new(n as nat, |x: int| 0int));
                cat.lemma_wf(s);
                lemma_loc_mono(cat.ty(), cat.bas(), cat.nbas(), ss[c][0] as int, s);
                lemma_loc_mono(cat.ty(), cat.bas(), cat.nbas(), s + 1, ss[c][1] as int);
            }
            assert forall|c: int| 0 <= c < n implies 1 <= #[trigger] d[c] by {
                assert(0 <= p[c] < d[c]);
            }
            assert forall|c: int| 0 <= c < n implies #[trigger] block_dims(cat, ss, b as int)[c] != 0 by {}
            assert(d.subrange(0, n) =~= d);
            assert(p.subrange(0, n) =~= p);
            lemma_prod_nonneg(d);
            let pr = prod(d);
            let nc = self.kind@.n_comp as int;
            assert(pr <= pr * nc) by (nonlinear_arith)
                requires
                    pr >= 0,
                    nc >= 1,
            ;
        }
        let mut off: usize = 0;
        let mut a: usize = self.extents.len();
        while a > 0
            invariant
                self.wf(),
                cat == self.cat@, ss == self.ss@, n == ss.len(),
                d == extents(cat, ss),
                p == ints(aoff@),
                in_box(p, d),
                forall|c: int| 0 <= c < n ==> 1 <= #[trigger] d[c],
                prod(d) <= self.out_len,
                a <= n,
                off == fidx(p.subrange(a as int, n), d.subrange(a as int, n)),
            decreases a,
        {
            proof {
                let ps = p.subrange(a as int, n);
                let ds = d.subrange(a as int, n);
                assert(in_box(ps, ds));
                lemma_fidx_bound(ps, ds);
                lemma_prod_suffix_le(d, a as int);
                let pa = p.subrange(a - 1, n);
                let d1 = d.subrange(a - 1, n);
                assert(pa.drop_first() =~= ps);
                assert(d1.drop_first() =~= ds);
                assert(in_box(pa, d1));
                lemma_fidx_bound(pa, d1);
                lemma_prod_suffix_le(d, a - 1);
                assert(ints(self.extents@)[a - 1] == self.extents@[a - 1]);
                assert(ints(aoff@)[a - 1] == aoff@[a - 1]);
                assert(self.extents@[a - 1] * off <= fidx(pa, d1));
            }
            off = aoff[a - 1] + self.extents[a - 1] * off;
            a -= 1;
        }
        (shls, Some(off))
    }
}

impl DensePlan {
    /// Shells of block `b`, and the offset at which the kernel writes it when
    /// the output is the sub-region at `origin` of a larger tensor of extents
    /// `outer` (first axis fastest, `outer` as strides, the components
    /// `prod(outer)` apart); no offset when the block holds no basis function.
    pub fn block_in(&self, b: usize, outer: &[usize], origin: &[usize]) -> (r: (Vec<i32>, Option<usize>))
        requires
            self.wf(),
            b < n_blocks(self.slices()),
            embed_ok(self.catalog(), self.slices(), ints(outer@), ints(origin@)),
            prod(ints(outer@)) <= usize::MAX,
        ensures
            r.0@.len() == self.slices().len(),
            forall|a: int| 0 <= a < r.0@.len() ==> r.0@[a] == block_shells(self.slices(), b as int)[a],
            r.1 is None <==> exists|a: int| 0 <= a < self.slices().len()
                && #[trigger] block_dims(self.catalog(), self.slices(), b as int)[a] == 0,
            r.1 is Some ==> r.1->0 == embedded_offset(self.catalog(), self.slices(), b as int, ints(outer@), ints(origin@)),
    {
        let ghost cat = self.cat@;
        let ghost ss = self.ss@;
        let ghost n = ss.len() as int;
        let ghost ou = ints(outer@);
        let ghost og = ints(origin@);
        let (shls, aoff, sizes) = self.block_parts(b);
        let ghost dims = block_dims(cat, ss, b as int);
        assert(sizes@.len() == ints(sizes@).len());
        assert(aoff@.len() == ints(aoff@).len());
        assert(outer@.len() == ou.len() && origin@.len() == og.len());
        let mut a: usize = 0;
        while a < sizes.len()
            invariant
                self.wf(),
                cat == self.cat@, ss == self.ss@, n == ss.len(),
                dims == block_dims(cat, ss, b as int),
                a <= sizes@.len(),
                sizes@.len() == n,
                ints(sizes@) == dims,
                shls@.len() == n,
                forall|c: int| 0 <= c < n ==> shls@[c] == block_shells(ss, b as int)[c],
                forall|c: int| 0 <= c < a ==> #[trigger] dims[c] != 0,
            decreases sizes@.len() - a,
        {
            if sizes[a] == 0 {
                proof {
                    assert(dims[a as int] == 0);
                    assert(self.catalog() == cat && self.slices() == ss);
                    assert(exists|c: int| 0 <= c < self.slices().len()
                        && #[trigger] block_dims(self.catalog(), self.slices(), b as int)[c] == 0);
                }
                return (shls, None);
            }
            proof {
                assert(ints(sizes@)[a as int] == sizes@[a as int]);
            }
            a += 1;
        }
        let ghost d = extents(cat, ss);
        let ghost p = shift(og, block_aoff(cat, ss, b as int));
        proof {
            lemma_call_ok(cat, self.kind@, ss);
            cat.lemma_wf_counts();
            assert forall|c: int| 0 <= c < n implies 0 <= #[trigger] p[c] < ou[c] && 1 <= ou[c] by {
                let s = block_shells(ss, b as int)[c];
                assert(dims[c] != 0);
                assert(in_box(Seq::new(n as nat, |x: int| 0int), dims));
                lemma_block(cat, self.kind@, ss, b as int, Seq::new(n as nat, |x: int| 0int));
                cat.lemma_wf(s);
                lemma_loc_mono(cat.ty(), cat.bas(), cat.nbas(), ss[c][0] as int, s);
                lemma_loc_mono(cat.ty(), cat.bas(), cat.nbas(), s + 1, ss[c][1] as int);
                assert(0 <= og[c] && og[c] + d[c] <= ou[c]);
            }
            assert forall|c: int| 0 <= c < n implies 1 <= #[trigger] ou[c] by {
                assert(0 <= p[c] < ou[c]);
            }
            assert forall|c: int| 0 <= c < n implies #[trigger] block_dims(cat, ss, b as int)[c] != 0 by {}
            assert(ou.subrange(0, n) =~= ou);
            assert(p.subrange(0, n) =~= p);
        }
        let mut off: usize = 0;
        let mut a: usize = outer.len();
        while a > 0
            invariant
                self.wf(),
                cat == self.cat@, ss == self.ss@, n == ss.len(),
                ou == ints(outer@), og == ints(origin@),
                outer@.len() == n, origin@.len() == n, aoff@.len() == n,
                p == shift(og, block_aoff(cat, ss, b as int)),
                ints(aoff@) == block_aoff(cat, ss, b as int),
                in_box(p, ou),
                forall|c: int| 0 <= c < n ==> 1 <= #[trigger] ou[c],
                prod(ou) <= usize::MAX,
                a <= n,
                off == fidx(p.subrange(a as int, n), ou.subrange(a as int, n)),
            decreases a,
        {
            proof {
                let ps = p.subrange(a as int, n);
                let ds = ou.subrange(a as int, n);
                assert(in_box(ps, ds));
                lemma_fidx_bound(ps, ds);
                let p1 = p.subrange(a - 1, n);
                let d1 = ou.subrange(a - 1, n);
                assert(p1.drop_first() =~= ps);
                assert(d1.drop_first() =~= ds);
                assert(in_box(p1, d1));
                lemma_fidx_bound(p1, d1);
                lemma_prod_suffix_le(ou, a - 1);
                assert(ou[a - 1] == outer@[a - 1]);
                assert(ints(aoff@)[a - 1] == aoff@[a - 1]);
                assert(og[a - 1] == origin@[a - 1]);
                assert(p[a - 1] == origin@[a - 1] + aoff@[a - 1]);
                assert(outer@[a - 1] * off <= fidx(p1, d1));
            }
            off = origin[a - 1] + aoff[a - 1] + outer[a - 1] * off;
            a -= 1;
        }
        (shls, Some(off))
    }
}

impl CINTR2CDATA {
    /// Plans a dense call: validates the slices and cuts the output into one
    /// block per combination of shells.
    pub fn plan_s1(&self, kind: &IntegralKind, shl_slices: &[[i32; 2]]) -> (r: Result<DensePlan, SliceError>)
        requires
            self.wf(),
            kind.wf(),
        ensures
            match slices_fault(shl_slices@, kind.n_center as int, self.nbas()) {
                Some(e) => r == Err::<DensePlan, SliceError>(e),
                None => if n_blocks(shl_slices@) > usize::MAX || dense_len(*self, *kind, shl_slices@) > usize::MAX {
                    r == Err::<DensePlan, SliceError>(SliceError::TooLarge)
                } else {
                    &&& r is Ok
                    &&& r->Ok_0.wf()
                    &&& r->Ok_0.catalog() == *self
                    &&& r->Ok_0.integral_kind() == *kind
                    &&& r->Ok_0.slices() == shl_slices@
                },
            },
    {
        if let Err(e) = self.check_shl_slices(kind, shl_slices) {
            return Err(e);
        }
        let ghost ss = shl_slices@;
        proof {
            lemma_call_ok(*self, *kind, ss);
        }
        let extents_v = self.cgto_shape(kind, shl_slices);
        let locs_rel = self.cgto_loc_slices_relative(shl_slices);
        let mut starts: Vec<i32> = Vec::new();
        let mut counts_v: Vec<usize> = Vec::new();
        let mut a: usize = 0;
        while a < shl_slices.len()
            invariant
                forall|c: int| 0 <= c < ss.len() ==> 0 <= #[trigger] ss[c][0] <= ss[c][1],
                ss == shl_slices@,
                a <= ss.len(),
                starts@.len() == a,
                counts_v@.len() == a,
                forall|c: int| 0 <= c < a ==> #[trigger] starts@[c] == ss[c][0],
                forall|c: int| 0 <= c < a ==> #[trigger] counts_v@[c] == ss[c][1] - ss[c][0],
            decreases ss.len() - a,
        {
            starts.push(shl_slices[a][0]);
            counts_v.push((shl_slices[a][1] - shl_slices[a][0]) as usize);
            a += 1;
        }
        proof {
            assert(ints(extents_v@) =~= extents(*self, ss));
            assert(ints(counts_v@) =~= counts(ss));
        }
        let n_blocks = match checked_prod(&counts_v) {
            Some(n) => n,
            None => {
                return Err(SliceError::TooLarge);
            },
        };
        let n_elem = match checked_prod(&extents_v) {
            Some(n) => n,
            None => {
                proof {
                    let pr = prod(extents(*self, ss));
                    let nc = kind.n_comp as int;
                    assert(pr * nc >= pr) by (nonlinear_arith)
                        requires
                            pr >= 0,
                            nc >= 1,
                    ;
                }
                return Err(SliceError::TooLarge);
            },
        };
        let out_len = match n_elem.checked_mul(kind.n_comp) {
            Some(n) => n,
            None => {
                return Err(SliceError::TooLarge);
            },
        };
        let plan = DensePlan {
            starts,
            counts: counts_v,
            extents: extents_v,
            locs_rel,
            n_comp: kind.n_comp,
            n_blocks,
            out_len,
            cat: Ghost(*self),
            kind: Ghost(*kind),
            ss: Ghost(ss),
        };
        assert forall|c: int, t: int| 0 <= c < ss.len() && 0 <= t <= counts(ss)[c]
            implies #[trigger] plan.locs_rel@[c]@[t] == self.loc(ss[c][0] + t) - self.loc(ss[c][0] as int) by {
            assert(plan.locs_rel@[c]@.len() == ss[c][1] - ss[c][0] + 1);
        }
        Ok(plan)
    }
}

} // verus!
