//! Shell slices: their validation against a catalog and an integral kind, the
//! shape of the tensor they address, and the scratch sizes a call needs.
use vstd::prelude::*;
use crate::basis::{CINTR2CDATA, MAX_AO, lemma_loc_mono};
use crate::layout::tri;
use crate::tensor::{prod, ints, checked_prod};

verus! {

/// The shape of one kind of integral: how many centers (tensor axes) it
/// couples and how many components each block carries.
#[derive(Clone, Copy, Debug, PartialEq, Eq, Structural)]
pub struct IntegralKind {
    pub n_center: usize,
    pub n_comp: usize,
}

impl IntegralKind {
    pub open spec fn wf(&self) -> bool {
        2 <= self.n_center <= 4 && 1 <= self.n_comp
    }
}

/// Why shell slices were refused.
#[derive(Clone, Copy, Debug, PartialEq, Eq, Structural)]
pub enum SliceError {
    /// The number of slices differs from the number of centers.
    InvalidSliceCount { expected: usize, found: usize },
    /// A slice ends before it starts.
    DescendingRange { start: i32, stop: i32 },
    /// A slice ends past the last shell.
    OutOfBounds { start: i32, stop: i32, nbas: i32 },
    /// A slice starts below zero.
    NegativeIndex { start: i32, stop: i32 },
    /// A packed request whose first two slices differ.
    AsymmetricSlice { first_start: i32, first_stop: i32, second_start: i32, second_stop: i32 },
    /// The output tensor, its packed pairs or its blocks cannot be counted in `usize`.
    TooLarge,
    /// A shell of a block lies outside `0..nbas`.
    ShellOutOfRange { shell: i32, nbas: i32 },
}

/// The fault of one slice, checked in the order: descending, out of bounds, negative.
pub open spec fn slice_fault(sl: [i32; 2], nbas: int) -> Option<SliceError> {
    if sl[1] < sl[0] {
        Some(SliceError::DescendingRange { start: sl[0], stop: sl[1] })
    } else if sl[1] > nbas {
        Some(SliceError::OutOfBounds { start: sl[0], stop: sl[1], nbas: nbas as i32 })
    } else if sl[0] < 0 {
        Some(SliceError::NegativeIndex { start: sl[0], stop: sl[1] })
    } else {
        None
    }
}

/// The fault of the first faulty slice from `from` on.
pub open spec fn first_slice_fault(ss: Seq<[i32; 2]>, nbas: int, from: int) -> Option<SliceError>
    decreases ss.len() - from,
{
    if from >= ss.len() {
        None
    } else if slice_fault(ss[from], nbas).is_some() {
        slice_fault(ss[from], nbas)
    } else {
        first_slice_fault(ss, nbas, from + 1)
    }
}

/// What `check_shl_slices` reports: `None` when the slices are accepted.
pub open spec fn slices_fault(ss: Seq<[i32; 2]>, n_center: int, nbas: int) -> Option<SliceError> {
    if ss.len() != n_center {
        Some(SliceError::InvalidSliceCount { expected: n_center as usize, found: ss.len() as usize })
    } else {
        first_slice_fault(ss, nbas, 0)
    }
}

/// Every slice is a range `0 <= start <= stop <= nbas`.
pub open spec fn slices_in(ss: Seq<[i32; 2]>, nbas: int) -> bool {
    forall|a: int| 0 <= a < ss.len() ==> 0 <= (#[trigger] ss[a])[0] <= ss[a][1] <= nbas
}

/// No fault from `from` on means every slice from `from` on is a range within the shells.
pub proof fn lemma_no_fault(ss: Seq<[i32; 2]>, nbas: int, from: int)
    requires
        0 <= from,
        first_slice_fault(ss, nbas, from).is_none(),
    ensures
        forall|a: int| from <= a < ss.len() ==> 0 <= #[trigger] ss[a][0] <= ss[a][1] <= nbas,
    decreases ss.len() - from,
{
    if from < ss.len() {
        lemma_no_fault(ss, nbas, from + 1);
    }
}

/// Extent along one axis: the basis functions of the shells of the slice.
pub open spec fn extent(cat: CINTR2CDATA, sl: [i32; 2]) -> int {
    cat.loc(sl[1] as int) - cat.loc(sl[0] as int)
}

/// Largest probe value in `f[lo..hi]`, 0 for an empty range.
pub open spec fn max_over(f: Seq<usize>, lo: int, hi: int) -> int
    decreases hi - lo,
{
    if hi <= lo {
        0
    } else {
        let m = max_over(f, lo, hi - 1);
        if f[hi - 1] > m { f[hi - 1] as int } else { m }
    }
}

/// First shell probed for the scratch size: the smallest start, 0 for no slices.
pub open spec fn probe_lo(ss: Seq<[i32; 2]>) -> int
    decreases ss.len(),
{
    if ss.len() == 0 {
        0
    } else if ss.len() == 1 {
        ss[0][0] as int
    } else {
        let m = probe_lo(ss.drop_last());
        if ss.last()[0] < m { ss.last()[0] as int } else { m }
    }
}

/// End of the shells probed for the scratch size: the largest stop, `nbas` for no slices.
pub open spec fn probe_hi(ss: Seq<[i32; 2]>, nbas: int) -> int
    decreases ss.len(),
{
    if ss.len() == 0 {
        nbas
    } else if ss.len() == 1 {
        ss[0][1] as int
    } else {
        let m = probe_hi(ss.drop_last(), nbas);
        if ss.last()[1] > m { ss.last()[1] as int } else { m }
    }
}

/// The scratch size a call over `ss` needs when shell `s` alone needs `f[s]`.
pub open spec fn cache_need(f: Seq<usize>, ss: Seq<[i32; 2]>, nbas: int) -> int {
    max_over(f, probe_lo(ss), probe_hi(ss, nbas))
}

impl CINTR2CDATA {
    /// Checks the slices of a call against the kind's number of centers and the shells.
    pub fn check_shl_slices(&self, kind: &IntegralKind, shl_slices: &[[i32; 2]]) -> (r: Result<(), SliceError>)
        requires
            self.wf(),
        ensures
            r == match slices_fault(shl_slices@, kind.n_center as int, self.nbas()) {
                None => Ok::<(), SliceError>(()),
                Some(e) => Err(e),
            },
    {
        proof {
            self.lemma_wf_counts();
        }
        let n_center = kind.n_center;
        if shl_slices.len() != n_center {
            return Err(SliceError::InvalidSliceCount { expected: n_center, found: shl_slices.len() });
        }
        let nbas = self.n_shells();
        let mut a: usize = 0;
        while a < shl_slices.len()
            invariant
                self.wf(),
                nbas == self.nbas(),
                shl_slices@.len() == kind.n_center,
                a <= shl_slices@.len(),
                first_slice_fault(shl_slices@, nbas as int, 0) == first_slice_fault(shl_slices@, nbas as int, a as int),
            decreases shl_slices@.len() - a,
        {
            let shl_slice = shl_slices[a];
            if shl_slice[1] < shl_slice[0] {
                return Err(SliceError::DescendingRange { start: shl_slice[0], stop: shl_slice[1] });
            }
            if shl_slice[1] > nbas {
                return Err(SliceError::OutOfBounds { start: shl_slice[0], stop: shl_slice[1], nbas });
            }
            if shl_slice[0] < 0 {
                return Err(SliceError::NegativeIndex { start: shl_slice[0], stop: shl_slice[1] });
            }
            a += 1;
        }
        Ok(())
    }

    /// Offsets of the shells `shl_slice[0] ..= shl_slice[1]`.
    pub fn cgto_loc_slice(&self, shl_slice: &[i32; 2]) -> (r: Vec<usize>)
        requires
            self.wf(),
            0 <= shl_slice[0] <= shl_slice[1] <= self.nbas(),
        ensures
            r@.len() == shl_slice[1] - shl_slice[0] + 1,
            forall|t: int| 0 <= t < r@.len() ==> r@[t] == self.loc(shl_slice[0] + t),
    {
        let loc = self.cgto_loc();
        let start = shl_slice[0] as usize;
        let stop = shl_slice[1] as usize;
        let mut r: Vec<usize> = Vec::new();
        let mut s = start;
        while s <= stop
            invariant
                start <= s <= stop + 1,
                stop < loc@.len(),
                start == shl_slice[0], stop == shl_slice[1],
                r@.len() == s - start,
                forall|t: int| 0 <= t < r@.len() ==> r@[t] == loc@[start + t],
            decreases stop + 1 - s,
        {
            r.push(loc[s]);
            s += 1;
        }
        r
    }

    /// Offsets of the shells `shl_slice[0] ..= shl_slice[1]`, relative to the first.
    pub fn cgto_loc_slice_relative(&self, shl_slice: &[i32; 2]) -> (r: Vec<usize>)
        requires
            self.wf(),
            0 <= shl_slice[0] <= shl_slice[1] <= self.nbas(),
        ensures
            r@.len() == shl_slice[1] - shl_slice[0] + 1,
            forall|t: int| 0 <= t < r@.len()
                ==> r@[t] == self.loc(shl_slice[0] + t) - self.loc(shl_slice[0] as int),
    {
        let loc_slice = self.cgto_loc_slice(shl_slice);
        let first = loc_slice[0];
        let mut r: Vec<usize> = Vec::new();
        let mut t: usize = 0;
        while t < loc_slice.len()
            invariant
                self.wf(),
                0 <= shl_slice[0] <= shl_slice[1] <= self.nbas(),
                loc_slice@.len() == shl_slice[1] - shl_slice[0] + 1,
                forall|u: int| 0 <= u < loc_slice@.len() ==> loc_slice@[u] == self.loc(shl_slice[0] + u),
                first == self.loc(shl_slice[0] as int),
                t <= loc_slice@.len(),
                r@.len() == t,
                forall|u: int| 0 <= u < t ==> r@[u] == self.loc(shl_slice[0] + u) - self.loc(shl_slice[0] as int),
            decreases loc_slice@.len() - t,
        {
            proof {
                self.lemma_wf_counts();
                lemma_loc_mono(self.ty(), self.bas(), self.nbas(), shl_slice[0] as int, shl_slice[0] + t);
            }
            r.push(loc_slice[t] - first);
            t += 1;
        }
        r
    }

    /// Relative offsets of the shells of each slice.
    pub fn cgto_loc_slices_relative(&self, shl_slices: &[[i32; 2]]) -> (r: Vec<Vec<usize>>)
        requires
            self.wf(),
            slices_in(shl_slices@, self.nbas()),
        ensures
            r@.len() == shl_slices@.len(),
            forall|a: int| 0 <= a < r@.len() ==> {
                &&& (#[trigger] r@[a])@.len() == shl_slices@[a][1] - shl_slices@[a][0] + 1
                &&& forall|t: int| 0 <= t < r@[a]@.len()
                    ==> r@[a]@[t] == self.loc(shl_slices@[a][0] + t) - self.loc(shl_slices@[a][0] as int)
            },
    {
        let mut r: Vec<Vec<usize>> = Vec::new();
        let mut a: usize = 0;
        while a < shl_slices.len()
            invariant
                self.wf(),
                slices_in(shl_slices@, self.nbas()),
                a <= shl_slices@.len(),
                r@.len() == a,
                forall|b: int| 0 <= b < a ==> {
                    &&& (#[trigger] r@[b])@.len() == shl_slices@[b][1] - shl_slices@[b][0] + 1
                    &&& forall|t: int| 0 <= t < r@[b]@.len()
                        ==> r@[b]@[t] == self.loc(shl_slices@[b][0] + t) - self.loc(shl_slices@[b][0] as int)
                },
            decreases shl_slices@.len() - a,
        {
            let rel = self.cgto_loc_slice_relative(&shl_slices[a]);
            r.push(rel);
            a += 1;
        }
        r
    }
}

/// Largest shell size among the shells `lo..hi`, 0 for none.
pub open spec fn max_size(cat: CINTR2CDATA, lo: int, hi: int) -> int
    decreases hi - lo,
{
    if hi <= lo {
        0
    } else {
        let m = max_size(cat, lo, hi - 1);
        if cat.size(hi - 1) > m { cat.size(hi - 1) } else { m }
    }
}

/// Product over the slices `ss[from..]` of their largest shell size.
pub open spec fn max_block(cat: CINTR2CDATA, ss: Seq<[i32; 2]>, from: int) -> int
    decreases ss.len() - from,
{
    if from >= ss.len() {
        1
    } else {
        max_size(cat, ss[from][0] as int, ss[from][1] as int) * max_block(cat, ss, from + 1)
    }
}

/// Shape of the dense output: one extent per slice, then the components when more than one.
pub open spec fn dense_shape(cat: CINTR2CDATA, kind: IntegralKind, ss: Seq<[i32; 2]>) -> Seq<usize> {
    let axes = Seq::new(ss.len(), |a: int| extent(cat, ss[a]) as usize);
    if kind.n_comp > 1 { axes.push(kind.n_comp) } else { axes }
}

/// Basis-function axes of the packed output: the pairs of the first two
/// axes, then the further extents. No component axis.
pub open spec fn packed_shape(cat: CINTR2CDATA, ss: Seq<[i32; 2]>) -> Seq<usize> {
    seq![tri(extent(cat, ss[0])) as usize] + Seq::new((ss.len() - 2) as nat, |a: int| extent(cat, ss[a + 2]) as usize)
}

proof fn lemma_max_size_bound(cat: CINTR2CDATA, lo: int, hi: int)
    requires
        cat.wf(),
        0 <= lo,
        hi <= cat.nbas(),
    ensures
        0 <= max_size(cat, lo, hi) <= MAX_AO,
        forall|s: int| lo <= s < hi ==> cat.size(s) <= #[trigger] max_size(cat, lo, hi),
    decreases hi - lo,
{
    if hi > lo {
        lemma_max_size_bound(cat, lo, hi - 1);
        cat.lemma_wf(hi - 1);
    }
}

impl CINTR2CDATA {
    /// Extent of one axis: the basis functions of the shells of `shl_slice`.
    fn slice_extent(&self, shl_slice: &[i32; 2]) -> (r: usize)
        requires
            self.wf(),
            0 <= shl_slice[0] <= shl_slice[1] <= self.nbas(),
        ensures
            r == extent(*self, *shl_slice),
            r <= MAX_AO,
    {
        let loc = self.cgto_loc_slice(shl_slice);
        proof {
            self.lemma_wf_counts();
            self.lemma_wf(shl_slice[1] as int);
            lemma_loc_mono(self.ty(), self.bas(), self.nbas(), shl_slice[0] as int, shl_slice[1] as int);
        }
        loc[loc.len() - 1] - loc[0]
    }

    /// Extents of the basis-function axes addressed by the slices.
    pub fn cgto_shape(&self, kind: &IntegralKind, shl_slices: &[[i32; 2]]) -> (r: Vec<usize>)
        requires
            self.wf(),
            slices_fault(shl_slices@, kind.n_center as int, self.nbas()).is_none(),
        ensures
            r@.len() == shl_slices@.len(),
            r@.len() == kind.n_center,
            forall|a: int| 0 <= a < r@.len() ==> r@[a] == extent(*self, shl_slices@[a]),
            forall|a: int| 0 <= a < r@.len() ==> r@[a] <= MAX_AO,
    {
        proof {
            lemma_no_fault(shl_slices@, self.nbas(), 0);
        }
        let mut shape: Vec<usize> = Vec::new();
        let mut a: usize = 0;
        while a < shl_slices.len()
            invariant
                self.wf(),
                slices_in(shl_slices@, self.nbas()),
                a <= shl_slices@.len(),
                shape@.len() == a,
                forall|b: int| 0 <= b < a ==> shape@[b] == extent(*self, shl_slices@[b]),
                forall|b: int| 0 <= b < a ==> shape@[b] <= MAX_AO,
            decreases shl_slices@.len() - a,
        {
            let d = self.slice_extent(&shl_slices[a]);
            shape.push(d);
            a += 1;
        }
        shape
    }

    /// Shape of the dense output tensor, or why the slices were refused.
    pub fn cgto_shape_s1(&self, kind: &IntegralKind, shl_slices: &[[i32; 2]]) -> (r: Result<Vec<usize>, SliceError>)
        requires
            self.wf(),
        ensures
            match slices_fault(shl_slices@, kind.n_center as int, self.nbas()) {
                Some(e) => r == Err::<Vec<usize>, SliceError>(e),
                None => r is Ok && r->Ok_0@ == dense_shape(*self, *kind, shl_slices@),
            },
    {
        match self.check_shl_slices(kind, shl_slices) {
            Err(e) => Err(e),
            Ok(()) => {
                let mut shape = self.cgto_shape(kind, shl_slices);
                if kind.n_comp > 1 {
                    shape.push(kind.n_comp);
                }
                assert(shape@ =~= dense_shape(*self, *kind, shl_slices@));
                Ok(shape)
            },
        }
    }

    /// Basis-function axes of the packed output tensor, or why the slices were
    /// refused: the first two slices must be equal, and their axes are stored
    /// as one axis of pairs. The component axis is not included.
    pub fn cgto_shape_s2ij(&self, kind: &IntegralKind, shl_slices: &[[i32; 2]]) -> (r: Result<Vec<usize>, SliceError>)
        requires
            self.wf(),
            kind.wf(),
        ensures
            match slices_fault(shl_slices@, kind.n_center as int, self.nbas()) {
                Some(e) => r == Err::<Vec<usize>, SliceError>(e),
                None => if shl_slices@[0] != shl_slices@[1] {
                    r == Err::<Vec<usize>, SliceError>(SliceError::AsymmetricSlice {
                        first_start: shl_slices@[0][0],
                        first_stop: shl_slices@[0][1],
                        second_start: shl_slices@[1][0],
                        second_stop: shl_slices@[1][1],
                    })
                } else if extent(*self, shl_slices@[0]) * (extent(*self, shl_slices@[0]) + 1) > usize::MAX {
                    r == Err::<Vec<usize>, SliceError>(SliceError::TooLarge)
                } else {
                    r is Ok && r->Ok_0@ == packed_shape(*self, shl_slices@)
                },
            },
    {
        if let Err(e) = self.check_shl_slices(kind, shl_slices) {
            return Err(e);
        }
        let first = shl_slices[0];
        let second = shl_slices[1];
        if first[0] != second[0] || first[1] != second[1] {
            proof {
                assert(shl_slices@[0] != shl_slices@[1]);
            }
            return Err(SliceError::AsymmetricSlice {
                first_start: first[0],
                first_stop: first[1],
                second_start: second[0],
                second_stop: second[1],
            });
        }
        proof {
            assert(shl_slices@[0] =~= shl_slices@[1]);
        }
        let extents = self.cgto_shape(kind, shl_slices);
        let d = extents[0];
        let pairs = match d.checked_add(1) {
            Some(d1) => d.checked_mul(d1),
            None => None,
        };
        let pairs = match pairs {
            Some(p) => p / 2,
            None => {
                proof {
                    if d + 1 > usize::MAX {
                        assert(d * (d + 1) >= d + 1) by (nonlinear_arith)
                            requires
                                d >= 1,
                        ;
                    }
                }
                return Err(SliceError::TooLarge);
            },
        };
        let mut shape: Vec<usize> = Vec::new();
        shape.push(pairs);
        let mut a: usize = 2;
        while a < extents.len()
            invariant
                2 <= a <= extents@.len(),
                extents@.len() == shl_slices@.len(),
                forall|b: int| 0 <= b < extents@.len() ==> extents@[b] == extent(*self, shl_slices@[b]),
                shape@.len() == a - 1,
                shape@[0] == tri(extent(*self, shl_slices@[0])),
                forall|b: int| 1 <= b < a - 1 ==> shape@[b] == extent(*self, shl_slices@[b + 1]),
            decreases extents@.len() - a,
        {
            shape.push(extents[a]);
            a += 1;
        }
        assert(shape@ =~= packed_shape(*self, shl_slices@));
        Ok(shape)
    }

    /// Largest shell size among the shells `lo..hi`.
    fn max_shell_size(&self, lo: i32, hi: i32) -> (r: usize)
        requires
            self.wf(),
            0 <= lo <= hi <= self.nbas(),
        ensures
            r == max_size(*self, lo as int, hi as int),
    {
        let mut m: usize = 0;
        let mut s = lo;
        while s < hi
            invariant
                self.wf(),
                0 <= lo <= s <= hi <= self.nbas(),
                m == max_size(*self, lo as int, s as int),
            decreases hi - s,
        {
            let size = self.cgto_size(s);
            if size > m {
                m = size;
            }
            s += 1;
        }
        m
    }

    /// Scratch elements one block needs: the components times, for each slice,
    /// the largest shell size in it; `None` when that does not fit in `usize`.
    pub fn size_of_buffer(&self, kind: &IntegralKind, shl_slices: &[[i32; 2]]) -> (r: Option<usize>)
        requires
            self.wf(),
            kind.wf(),
            slices_in(shl_slices@, self.nbas()),
        ensures
            match r {
                Some(n) => n == kind.n_comp * max_block(*self, shl_slices@, 0),
                None => kind.n_comp * max_block(*self, shl_slices@, 0) > usize::MAX,
            },
    {
        let ghost ss = shl_slices@;
        let mut maxima: Vec<usize> = Vec::new();
        let mut any_zero = false;
        let mut a: usize = 0;
        while a < shl_slices.len()
            invariant
                self.wf(),
                slices_in(ss, self.nbas()),
                ss == shl_slices@,
                a <= ss.len(),
                maxima@.len() == a,
                forall|b: int| 0 <= b < a ==> maxima@[b] == max_size(*self, ss[b][0] as int, ss[b][1] as int),
                any_zero <==> exists|b: int| 0 <= b < a && maxima@[b] == 0,
            decreases ss.len() - a,
        {
            let m = self.max_shell_size(shl_slices[a][0], shl_slices[a][1]);
            let ghost prev = maxima@;
            maxima.push(m);
            if m == 0 {
                any_zero = true;
            }
            proof {
                assert(maxima@[a as int] == m);
                assert forall|b: int| 0 <= b < a implies maxima@[b] == prev[b] by {}
            }
            a += 1;
        }
        if any_zero {
            proof {
                let b = choose|b: int| 0 <= b < ss.len() && maxima@[b] == 0;
                lemma_max_block_zero(*self, ss, 0, b);
            }
            return Some(0);
        }
        let mut prod: usize = 1;
        let mut a: usize = maxima.len();
        while a > 0
            invariant
                self.wf(),
                kind.wf(),
                slices_in(ss, self.nbas()),
                ss == shl_slices@,
                a <= ss.len(),
                maxima@.len() == ss.len(),
                forall|b: int| 0 <= b < ss.len() ==> maxima@[b] == max_size(*self, ss[b][0] as int, ss[b][1] as int),
                forall|b: int| 0 <= b < ss.len() ==> maxima@[b] >= 1,
                prod == max_block(*self, ss, a as int),
            decreases a,
        {
            match maxima[a - 1].checked_mul(prod) {
                Some(p) => {
                    prod = p;
                },
                None => {
                    proof {
                        assert forall|b: int| 0 <= b < ss.len()
                            implies #[trigger] max_size(*self, ss[b][0] as int, ss[b][1] as int) >= 1 by {
                            assert(maxima@[b] >= 1);
                        }
                        lemma_max_block_grows(*self, ss, 0, (a - 1) as int);
                        lemma_times_comp(kind.n_comp as int, max_block(*self, ss, 0));
                    }
                    return None;
                },
            }
            a -= 1;
        }
        kind.n_comp.checked_mul(prod)
    }

    /// Scratch size for a call over `shls_slice`: the largest size that the
    /// kernel's probe gives a shell of the probe range, 0 when the range is
    /// empty. `probe_sizes[s]` is the probe's answer for shell `s`; only the
    /// entries of the probe range are read.
    pub fn size_of_cache(&self, shls_slice: &[[i32; 2]], probe_sizes: &[usize]) -> (r: usize)
        requires
            self.wf(),
            slices_in(shls_slice@, self.nbas()),
            probe_sizes@.len() == self.nbas(),
        ensures
            r == cache_need(probe_sizes@, shls_slice@, self.nbas()),
    {
        let (lo, hi) = self.cache_probe_range(shls_slice);
        proof {
            self.lemma_wf_counts();
            lemma_probe_range_in(shls_slice@, self.nbas());
        }
        let mut m: usize = 0;
        let mut s = lo;
        while s < hi
            invariant
                0 <= lo <= s <= hi || hi <= lo,
                hi <= probe_sizes@.len(),
                lo == probe_lo(shls_slice@),
                hi == probe_hi(shls_slice@, self.nbas()),
                hi <= lo ==> s == lo,
                m == max_over(probe_sizes@, lo as int, s as int),
            decreases hi - s,
        {
            let p = probe_sizes[s as usize];
            if p > m {
                m = p;
            }
            s += 1;
        }
        m
    }

    /// First and end shell that the scratch size is probed over: the smallest
    /// start and the largest stop, or all shells when there are no slices.
    pub fn cache_probe_range(&self, shls_slice: &[[i32; 2]]) -> (r: (i32, i32))
        requires
            self.wf(),
            slices_in(shls_slice@, self.nbas()),
        ensures
            r.0 == probe_lo(shls_slice@),
            r.1 == probe_hi(shls_slice@, self.nbas()),
    {
        proof {
            self.lemma_wf_counts();
        }
        if shls_slice.len() == 0 {
            return (0, self.n_shells());
        }
        let mut lo = shls_slice[0][0];
        let mut hi = shls_slice[0][1];
        let mut a: usize = 1;
        while a < shls_slice.len()
            invariant
                1 <= a <= shls_slice@.len(),
                lo == probe_lo(shls_slice@.subrange(0, a as int)),
                hi == probe_hi(shls_slice@.subrange(0, a as int), self.nbas()),
            decreases shls_slice@.len() - a,
        {
            assert(shls_slice@.subrange(0, a + 1).drop_last() =~= shls_slice@.subrange(0, a as int));
            if shls_slice[a][0] < lo {
                lo = shls_slice[a][0];
            }
            if shls_slice[a][1] > hi {
                hi = shls_slice[a][1];
            }
            a += 1;
        }
        assert(shls_slice@.subrange(0, shls_slice@.len() as int) =~= shls_slice@);
        (lo, hi)
    }
}

proof fn lemma_max_block_nonneg(cat: CINTR2CDATA, ss: Seq<[i32; 2]>, from: int)
    requires
        cat.wf(),
        0 <= from,
        slices_in(ss, cat.nbas()),
    ensures
        0 <= max_block(cat, ss, from),
    decreases ss.len() - from,
{
    if from < ss.len() {
        lemma_max_block_nonneg(cat, ss, from + 1);
        lemma_max_size_bound(cat, ss[from][0] as int, ss[from][1] as int);
        let x = max_size(cat, ss[from][0] as int, ss[from][1] as int);
        let y = max_block(cat, ss, from + 1);
        assert(0 <= x * y) by (nonlinear_arith)
            requires
                0 <= x,
                0 <= y,
        ;
    }
}

/// A zero factor makes the product zero.
proof fn lemma_max_block_zero(cat: CINTR2CDATA, ss: Seq<[i32; 2]>, from: int, b: int)
    requires
        0 <= from <= b < ss.len(),
        max_size(cat, ss[b][0] as int, ss[b][1] as int) == 0,
    ensures
        max_block(cat, ss, from) == 0,
    decreases b - from,
{
    if from < b {
        lemma_max_block_zero(cat, ss, from + 1, b);
    }
}

/// With every factor at least one, a product over more slices is at least the product over fewer.
proof fn lemma_max_block_grows(cat: CINTR2CDATA, ss: Seq<[i32; 2]>, from: int, to: int)
    requires
        0 <= from <= to < ss.len(),
        forall|b: int| 0 <= b < ss.len() ==> #[trigger] max_size(cat, ss[b][0] as int, ss[b][1] as int) >= 1,
        max_size(cat, ss[to][0] as int, ss[to][1] as int) * max_block(cat, ss, to + 1) > usize::MAX,
        max_block(cat, ss, to + 1) >= 0,
    ensures
        max_block(cat, ss, from) > usize::MAX,
    decreases to - from,
{
    if from < to {
        lemma_max_block_grows(cat, ss, from + 1, to);
        let x = max_size(cat, ss[from][0] as int, ss[from][1] as int);
        let y = max_block(cat, ss, from + 1);
        assert(x * y >= y) by (nonlinear_arith)
            requires
                x >= 1,
                y >= 0,
        ;
    }
}

proof fn lemma_times_comp(c: int, x: int)
    requires
        c >= 1,
        x > usize::MAX,
    ensures
        c * x > usize::MAX,
{
    assert(c * x >= x) by (nonlinear_arith)
        requires
            c >= 1,
            x >= 0,
    ;
}

/// Every probe value of the range is at most its maximum, and a nonempty
/// range attains it.
pub proof fn lemma_max_over(f: Seq<usize>, lo: int, hi: int)
    ensures
        0 <= max_over(f, lo, hi),
        forall|t: int| lo <= t < hi ==> f[t] <= max_over(f, lo, hi),
        lo < hi ==> exists|t: int| lo <= t < hi && f[t] == max_over(f, lo, hi),
    decreases hi - lo,
{
    if lo < hi {
        lemma_max_over(f, lo, hi - 1);
        if lo < hi - 1 {
            let t = choose|t: int| lo <= t < hi - 1 && f[t] == max_over(f, lo, hi - 1);
            assert(lo <= t < hi);
        }
        assert(lo <= hi - 1 < hi);
    }
}

/// The maximum over a range is at most the maximum over any range holding it.
pub proof fn lemma_max_over_mono(f: Seq<usize>, lo1: int, hi1: int, lo2: int, hi2: int)
    requires
        lo2 <= lo1,
        hi1 <= hi2,
    ensures
        max_over(f, lo1, hi1) <= max_over(f, lo2, hi2),
{
    lemma_max_over(f, lo1, hi1);
    lemma_max_over(f, lo2, hi2);
    if lo1 < hi1 {
        let t = choose|t: int| lo1 <= t < hi1 && f[t] == max_over(f, lo1, hi1);
        assert(f[t] <= max_over(f, lo2, hi2));
    }
}

/// The probe range lies within the shells.
pub proof fn lemma_probe_range_in(ss: Seq<[i32; 2]>, nbas: int)
    requires
        0 <= nbas,
        slices_in(ss, nbas),
    ensures
        0 <= probe_lo(ss),
        probe_hi(ss, nbas) <= nbas,
        ss.len() > 0 ==> probe_lo(ss) <= probe_hi(ss, nbas),
    decreases ss.len(),
{
    if ss.len() > 1 {
        let rest = ss.drop_last();
        assert(forall|a: int| 0 <= a < rest.len() ==> rest[a] == ss[a]);
        lemma_probe_range_in(rest, nbas);
        assert(0 <= ss.last()[0] <= ss.last()[1] <= nbas);
    } else if ss.len() == 1 {
        assert(0 <= ss[0][0] <= ss[0][1] <= nbas);
    }
}

/// Adding slices to a nonempty list only widens the probe range.
pub proof fn lemma_probe_range_widens(ss: Seq<[i32; 2]>, more: Seq<[i32; 2]>, nbas: int)
    requires
        ss.len() >= 1,
    ensures
        probe_lo(ss + more) <= probe_lo(ss),
        probe_hi(ss + more, nbas) >= probe_hi(ss, nbas),
    decreases more.len(),
{
    if more.len() > 0 {
        lemma_probe_range_widens(ss, more.drop_last(), nbas);
        assert((ss + more).drop_last() =~= ss + more.drop_last());
    } else {
        assert(ss + more =~= ss);
    }
}

/// The scratch size never shrinks as slices are added to a nonempty list:
/// whatever size the kernel's probe gives each shell, the maximum over the
/// wider probe range is at least the maximum over the narrower one.
pub proof fn lemma_cache_need_monotone(f: Seq<usize>, ss: Seq<[i32; 2]>, more: Seq<[i32; 2]>, nbas: int)
    requires
        ss.len() >= 1,
    ensures
        cache_need(f, ss, nbas) <= cache_need(f, ss + more, nbas),
{
    lemma_probe_range_widens(ss, more, nbas);
    lemma_max_over_mono(f, probe_lo(ss), probe_hi(ss, nbas), probe_lo(ss + more), probe_hi(ss + more, nbas));
}

/// The first entry of `shls` from `from` on that is not a shell of `0..nbas`;
/// `shls.len()` if none.
pub open spec fn first_bad_shell_index(shls: Seq<i32>, nbas: int, from: int) -> int
    decreases shls.len() - from,
{
    if from >= shls.len() {
        shls.len() as int
    } else if shls[from] < 0 || shls[from] >= nbas {
        from
    } else {
        first_bad_shell_index(shls, nbas, from + 1)
    }
}

/// Shape of the kernel's block for the shells `shls`: their sizes, then the components.
pub open spec fn shells_dims(cat: CINTR2CDATA, shls: Seq<i32>, n_comp: int) -> Seq<int> {
    Seq::new(shls.len(), |a: int| cat.size(shls[a] as int)).push(n_comp)
}

/// What `block_len_of` reports: the block length, or why the shells were refused.
pub open spec fn block_len_result(cat: CINTR2CDATA, kind: IntegralKind, shls: Seq<i32>) -> Result<usize, SliceError> {
    let bad = first_bad_shell_index(shls, cat.nbas(), 0);
    if shls.len() != kind.n_center {
        Err(SliceError::InvalidSliceCount { expected: kind.n_center, found: shls.len() as usize })
    } else if bad < shls.len() {
        Err(SliceError::ShellOutOfRange { shell: shls[bad], nbas: cat.nbas() as i32 })
    } else if prod(shells_dims(cat, shls, kind.n_comp as int)) > usize::MAX {
        Err(SliceError::TooLarge)
    } else {
        Ok(prod(shells_dims(cat, shls, kind.n_comp as int)) as usize)
    }
}

impl CINTR2CDATA {
    /// Elements of the kernel's block for the shells `shls`, one per center:
    /// the components times the size of each shell.
    pub fn block_len_of(&self, kind: &IntegralKind, shls: &[i32]) -> (r: Result<usize, SliceError>)
        requires
            self.wf(),
        ensures
            r == block_len_result(*self, *kind, shls@),
    {
        proof {
            self.lemma_wf_counts();
        }
        if shls.len() != kind.n_center {
            return Err(SliceError::InvalidSliceCount { expected: kind.n_center, found: shls.len() });
        }
        let nbas = self.n_shells();
        let mut dims: Vec<usize> = Vec::new();
        let mut a: usize = 0;
        while a < shls.len()
            invariant
                self.wf(),
                nbas == self.nbas(),
                shls@.len() == kind.n_center,
                a <= shls@.len(),
                first_bad_shell_index(shls@, nbas as int, 0) == first_bad_shell_index(shls@, nbas as int, a as int),
                dims@.len() == a,
                forall|k: int| 0 <= k < a ==> 0 <= #[trigger] shls@[k] < nbas,
                forall|k: int| 0 <= k < a ==> dims@[k] == self.size(shls@[k] as int),
            decreases shls@.len() - a,
        {
            let s = shls[a];
            if s < 0 || s >= nbas {
                return Err(SliceError::ShellOutOfRange { shell: s, nbas });
            }
            dims.push(self.cgto_size(s));
            a += 1;
        }
        dims.push(kind.n_comp);
        proof {
            assert(ints(dims@) =~= shells_dims(*self, shls@, kind.n_comp as int));
        }
        match checked_prod(&dims) {
            Some(n) => Ok(n),
            None => Err(SliceError::TooLarge),
        }
    }
}

} // verus!
