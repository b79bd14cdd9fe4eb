//! Column-major offsets over any number of axes, and how a slice of shells
//! splits its axis of basis functions.
use vstd::prelude::*;
use crate::basis::{CINTR2CDATA, lemma_loc_mono};
use crate::layout::{lemma_stride_bound, lemma_stride_injective};

verus! {

/// Column-major offset of the multi-index `p` in a tensor of shape `d`.
pub open spec fn fidx(p: Seq<int>, d: Seq<int>) -> int
    decreases p.len(),
{
    if p.len() == 0 {
        0
    } else {
        p[0] + d[0] * fidx(p.drop_first(), d.drop_first())
    }
}

/// Number of elements of a tensor of shape `d`.
pub open spec fn prod(d: Seq<int>) -> int
    decreases d.len(),
{
    if d.len() == 0 {
        1
    } else {
        d[0] * prod(d.drop_first())
    }
}

/// `p` indexes an element of a tensor of shape `d`.
pub open spec fn in_box(p: Seq<int>, d: Seq<int>) -> bool {
    p.len() == d.len() && forall|a: int| 0 <= a < p.len() ==> 0 <= #[trigger] p[a] < d[a]
}

/// The multi-index whose column-major offset is `n`.
pub open spec fn unfidx(n: int, d: Seq<int>) -> Seq<int>
    decreases d.len(),
{
    if d.len() == 0 {
        seq![]
    } else {
        seq![n % d[0]] + unfidx(n / d[0], d.drop_first())
    }
}

pub proof fn lemma_prod_nonneg(d: Seq<int>)
    requires
        forall|a: int| 0 <= a < d.len() ==> 0 <= #[trigger] d[a],
    ensures
        0 <= prod(d),
    decreases d.len(),
{
    if d.len() > 0 {
        lemma_prod_nonneg(d.drop_first());
        assert(forall|a: int| 0 <= a < d.drop_first().len() ==> d.drop_first()[a] == d[a + 1]);
        let x = d[0];
        let y = prod(d.drop_first());
        assert(0 <= x * y) by (nonlinear_arith)
            requires
                0 <= x,
                0 <= y,
        ;
    }
}

/// Offsets of the elements stay below the number of elements.
pub proof fn lemma_fidx_bound(p: Seq<int>, d: Seq<int>)
    requires
        in_box(p, d),
    ensures
        0 <= fidx(p, d) < prod(d),
    decreases p.len(),
{
    if p.len() > 0 {
        assert(in_box(p.drop_first(), d.drop_first()));
        lemma_fidx_bound(p.drop_first(), d.drop_first());
        lemma_stride_bound(p[0], fidx(p.drop_first(), d.drop_first()), d[0], prod(d.drop_first()));
    }
}

/// Distinct elements have distinct offsets.
pub proof fn lemma_fidx_injective(pa: Seq<int>, pb: Seq<int>, d: Seq<int>)
    requires
        in_box(pa, d),
        in_box(pb, d),
        fidx(pa, d) == fidx(pb, d),
    ensures
        pa == pb,
    decreases d.len(),
{
    if d.len() > 0 {
        assert(in_box(pa.drop_first(), d.drop_first()));
        assert(in_box(pb.drop_first(), d.drop_first()));
        lemma_fidx_bound(pa.drop_first(), d.drop_first());
        lemma_fidx_bound(pb.drop_first(), d.drop_first());
        lemma_stride_injective(pa[0], fidx(pa.drop_first(), d.drop_first()), pb[0], fidx(pb.drop_first(), d.drop_first()), d[0]);
        lemma_fidx_injective(pa.drop_first(), pb.drop_first(), d.drop_first());
        assert(pa =~= seq![pa[0]] + pa.drop_first());
        assert(pb =~= seq![pb[0]] + pb.drop_first());
    } else {
        assert(pa =~= pb);
    }
}

/// Every offset below the number of elements is the offset of an element.
pub proof fn lemma_unfidx(n: int, d: Seq<int>)
    requires
        0 <= n < prod(d),
        forall|a: int| 0 <= a < d.len() ==> 0 <= #[trigger] d[a],
    ensures
        in_box(unfidx(n, d), d),
        fidx(unfidx(n, d), d) == n,
    decreases d.len(),
{
    if d.len() > 0 {
        let rest = d.drop_first();
        assert(forall|a: int| 0 <= a < rest.len() ==> rest[a] == d[a + 1]);
        lemma_prod_nonneg(rest);
        let x = d[0];
        let y = prod(rest);
        assert(x > 0) by (nonlinear_arith)
            requires
                0 <= n < x * y,
                0 <= y,
                0 <= x,
        ;
        assert(0 <= n / x < y) by (nonlinear_arith)
            requires
                0 <= n < x * y,
                x > 0,
        ;
        assert(n == n % x + x * (n / x)) by (nonlinear_arith)
            requires
                x > 0,
        ;
        lemma_unfidx(n / x, rest);
        let u = unfidx(n, d);
        assert(u.drop_first() =~= unfidx(n / x, rest));
        assert(0 <= n % x < x) by (nonlinear_arith)
            requires
                x > 0,
        ;
        assert forall|a: int| 0 <= a < u.len() implies 0 <= #[trigger] u[a] < d[a] by {
            if a > 0 {
                assert(u[a] == unfidx(n / x, rest)[a - 1]);
            }
        }
    }
}

/// The shell of `lo..hi` whose basis functions hold the absolute index `x`.
pub open spec fn shell_of(cat: CINTR2CDATA, lo: int, hi: int, x: int) -> int
    decreases hi - lo,
{
    if hi - lo <= 1 {
        lo
    } else if cat.loc(hi - 1) <= x {
        hi - 1
    } else {
        shell_of(cat, lo, hi - 1, x)
    }
}

/// Each basis function of a slice belongs to exactly one shell of it.
pub proof fn lemma_shell_of(cat: CINTR2CDATA, lo: int, hi: int, x: int)
    requires
        cat.wf(),
        0 <= lo < hi <= cat.nbas(),
        cat.loc(lo) <= x < cat.loc(hi),
    ensures
        lo <= shell_of(cat, lo, hi, x) < hi,
        cat.loc(shell_of(cat, lo, hi, x)) <= x < cat.loc(shell_of(cat, lo, hi, x) + 1),
    decreases hi - lo,
{
    cat.lemma_wf_counts();
    if hi - lo > 1 && cat.loc(hi - 1) > x {
        lemma_shell_of(cat, lo, hi - 1, x);
    }
}

/// No basis function belongs to two shells.
pub proof fn lemma_shell_unique(cat: CINTR2CDATA, s1: int, s2: int, x: int)
    requires
        cat.wf(),
        0 <= s1 < cat.nbas(),
        0 <= s2 < cat.nbas(),
        cat.loc(s1) <= x < cat.loc(s1 + 1),
        cat.loc(s2) <= x < cat.loc(s2 + 1),
    ensures
        s1 == s2,
{
    cat.lemma_wf_counts();
    if s1 < s2 {
        lemma_loc_mono(cat.ty(), cat.bas(), cat.nbas(), s1 + 1, s2);
    } else if s2 < s1 {
        lemma_loc_mono(cat.ty(), cat.bas(), cat.nbas(), s2 + 1, s1);
    }
}

/// A shape as integers.
pub open spec fn ints(v: Seq<usize>) -> Seq<int> {
    v.map_values(|x: usize| x as int)
}

/// A zero extent leaves no element.
pub proof fn lemma_prod_zero(d: Seq<int>, a: int)
    requires
        0 <= a < d.len(),
        d[a] == 0,
    ensures
        prod(d) == 0,
    decreases a,
{
    if a > 0 {
        lemma_prod_zero(d.drop_first(), a - 1);
    }
}

/// Peeling the first factor off a suffix.
pub proof fn lemma_prod_step(d: Seq<int>, a: int)
    requires
        0 <= a < d.len(),
    ensures
        prod(d.subrange(a, d.len() as int)) == d[a] * prod(d.subrange(a + 1, d.len() as int)),
{
    assert(d.subrange(a, d.len() as int).drop_first() =~= d.subrange(a + 1, d.len() as int));
}

/// With no extent below one, a suffix has at most the elements of the whole.
pub proof fn lemma_prod_suffix_le(d: Seq<int>, a: int)
    requires
        0 <= a <= d.len(),
        forall|b: int| 0 <= b < d.len() ==> 1 <= #[trigger] d[b],
    ensures
        prod(d.subrange(a, d.len() as int)) <= prod(d),
        0 <= prod(d.subrange(a, d.len() as int)),
    decreases a,
{
    if a > 0 {
        lemma_prod_suffix_le(d, a - 1);
        lemma_prod_step(d, a - 1);
        let x = d[a - 1];
        let y = prod(d.subrange(a, d.len() as int));
        assert(0 <= y <= x * y) by (nonlinear_arith)
            requires
                x >= 1,
                x * y >= 0,
        ;
    } else {
        assert(d.subrange(0, d.len() as int) =~= d);
        let sub = d;
        assert(forall|b: int| 0 <= b < sub.len() ==> 0 <= #[trigger] sub[b]);
        lemma_prod_nonneg(d);
    }
}

/// Number of elements of a tensor of shape `d`, or `None` when it exceeds `usize`.
pub fn checked_prod(d: &[usize]) -> (r: Option<usize>)
    ensures
        match r {
            Some(p) => p == prod(ints(d@)),
            None => prod(ints(d@)) > usize::MAX,
        },
{
    let ghost e = ints(d@);
    let mut a: usize = 0;
    while a < d.len()
        invariant
            e == ints(d@),
            a <= d@.len(),
            forall|b: int| 0 <= b < a ==> 1 <= #[trigger] e[b],
        decreases d@.len() - a,
    {
        if d[a] == 0 {
            proof {
                lemma_prod_zero(e, a as int);
            }
            return Some(0);
        }
        a += 1;
    }
    let mut acc: usize = 1;
    let mut a: usize = d.len();
    while a > 0
        invariant
            e == ints(d@),
            a <= d@.len(),
            forall|b: int| 0 <= b < e.len() ==> 1 <= #[trigger] e[b],
            acc == prod(e.subrange(a as int, e.len() as int)),
        decreases a,
    {
        proof {
            lemma_prod_step(e, a - 1);
        }
        match d[a - 1].checked_mul(acc) {
            Some(p) => {
                acc = p;
            },
            None => {
                proof {
                    lemma_prod_suffix_le(e, a - 1);
                }
                return None;
            },
        }
        a -= 1;
    }
    assert(e.subrange(0, e.len() as int) =~= e);
    Some(acc)
}

/// Column-major offset over three axes, written out.
pub proof fn lemma_fidx3(x0: int, x1: int, x2: int, d0: int, d1: int, d2: int)
    ensures
        fidx(seq![x0, x1, x2], seq![d0, d1, d2]) == x0 + d0 * (x1 + d1 * x2),
        prod(seq![d0, d1, d2]) == d0 * (d1 * d2),
{
    assert(seq![x0, x1, x2].drop_first() =~= seq![x1, x2]);
    assert(seq![d0, d1, d2].drop_first() =~= seq![d1, d2]);
    lemma_fidx12(x1, x2, d1, d2);
    assert(fidx(seq![x0, x1, x2], seq![d0, d1, d2]) == x0 + d0 * fidx(seq![x1, x2], seq![d1, d2]));
    assert(prod(seq![d0, d1, d2]) == d0 * prod(seq![d1, d2]));
}

/// Column-major offset over four axes, written out.
pub proof fn lemma_fidx4(x0: int, x1: int, x2: int, x3: int, d0: int, d1: int, d2: int, d3: int)
    ensures
        fidx(seq![x0, x1, x2, x3], seq![d0, d1, d2, d3]) == x0 + d0 * (x1 + d1 * (x2 + d2 * x3)),
        prod(seq![d0, d1, d2, d3]) == d0 * (d1 * (d2 * d3)),
{
    assert(seq![x0, x1, x2, x3].drop_first() =~= seq![x1, x2, x3]);
    assert(seq![d0, d1, d2, d3].drop_first() =~= seq![d1, d2, d3]);
    lemma_fidx3(x1, x2, x3, d1, d2, d3);
    assert(fidx(seq![x0, x1, x2, x3], seq![d0, d1, d2, d3]) == x0 + d0 * fidx(seq![x1, x2, x3], seq![d1, d2, d3]));
    assert(prod(seq![d0, d1, d2, d3]) == d0 * prod(seq![d1, d2, d3]));
}

/// Column-major offset over five axes, written out.
pub proof fn lemma_fidx5(x0: int, x1: int, x2: int, x3: int, x4: int, d0: int, d1: int, d2: int, d3: int, d4: int)
    ensures
        fidx(seq![x0, x1, x2, x3, x4], seq![d0, d1, d2, d3, d4])
            == x0 + d0 * (x1 + d1 * (x2 + d2 * (x3 + d3 * x4))),
        prod(seq![d0, d1, d2, d3, d4]) == d0 * (d1 * (d2 * (d3 * d4))),
{
    assert(seq![x0, x1, x2, x3, x4].drop_first() =~= seq![x1, x2, x3, x4]);
    assert(seq![d0, d1, d2, d3, d4].drop_first() =~= seq![d1, d2, d3, d4]);
    lemma_fidx4(x1, x2, x3, x4, d1, d2, d3, d4);
    assert(fidx(seq![x0, x1, x2, x3, x4], seq![d0, d1, d2, d3, d4])
        == x0 + d0 * fidx(seq![x1, x2, x3, x4], seq![d1, d2, d3, d4]));
    assert(prod(seq![d0, d1, d2, d3, d4]) == d0 * prod(seq![d1, d2, d3, d4]));
}

/// Offsets over one and two axes, written out.
pub proof fn lemma_fidx12(x0: int, x1: int, d0: int, d1: int)
    ensures
        fidx(seq![x0], seq![d0]) == x0,
        prod(seq![d0]) == d0,
        fidx(seq![x0, x1], seq![d0, d1]) == x0 + d0 * x1,
        prod(seq![d0, d1]) == d0 * d1,
{
    reveal_with_fuel(fidx, 2);
    reveal_with_fuel(prod, 2);
    let e = Seq::<int>::empty();
    assert(fidx(e, e) == 0);
    assert(prod(e) == 1);
    assert(seq![x0].drop_first() =~= e);
    assert(seq![d0].drop_first() =~= e);
    assert(fidx(seq![x0], seq![d0]) == x0 + d0 * fidx(e, e));
    assert(prod(seq![d0]) == d0 * prod(e));
    assert(fidx(seq![x1], seq![d1]) == x1 + d1 * fidx(e, e));
    assert(prod(seq![d1]) == d1 * prod(e));
    assert(seq![x0, x1].drop_first() =~= seq![x1]);
    assert(seq![d0, d1].drop_first() =~= seq![d1]);
    assert(seq![x1].drop_first() =~= e);
    assert(seq![d1].drop_first() =~= e);
}

/// A leading axis multiplies the number of elements by its extent.
pub proof fn lemma_prod_cons(x: int, d: Seq<int>)
    ensures
        prod(seq![x] + d) == x * prod(d),
{
    assert((seq![x] + d).drop_first() =~= d);
}

/// One more axis multiplies the number of elements by its extent.
pub proof fn lemma_prod_push(d: Seq<int>, x: int)
    ensures
        prod(d.push(x)) == prod(d) * x,
    decreases d.len(),
{
    if d.len() == 0 {
        lemma_fidx12(0, 0, x, 0);
        assert(d.push(x) =~= seq![x]);
    } else {
        assert(d.push(x).drop_first() =~= d.drop_first().push(x));
        lemma_prod_push(d.drop_first(), x);
        let a = d[0];
        let p = prod(d.drop_first());
        assert(a * (p * x) == (a * p) * x) by (nonlinear_arith);
    }
}

/// A shape no larger along any axis has no more elements.
pub proof fn lemma_prod_le(a: Seq<int>, b: Seq<int>)
    requires
        a.len() == b.len(),
        forall|k: int| 0 <= k < a.len() ==> 0 <= #[trigger] a[k] <= b[k],
    ensures
        0 <= prod(a) <= prod(b),
    decreases a.len(),
{
    if a.len() > 0 {
        assert(forall|k: int| 0 <= k < a.drop_first().len() ==> a.drop_first()[k] == a[k + 1] && b.drop_first()[k] == b[k + 1]);
        lemma_prod_le(a.drop_first(), b.drop_first());
        let x = a[0];
        let y = b[0];
        let p = prod(a.drop_first());
        let q = prod(b.drop_first());
        assert(0 <= x * p <= y * q) by (nonlinear_arith)
            requires
                0 <= x <= y,
                0 <= p <= q,
        ;
    }
}

} // verus!
