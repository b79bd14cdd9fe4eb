//! The basis catalog: integer tables of atoms and shells, and the number and
//! position of the basis functions that each shell contributes.
use vstd::prelude::*;

verus! {

/// Slots of one atom row.
pub const ATM_SLOTS: usize = 6;
/// Slots of one shell row.
pub const BAS_SLOTS: usize = 8;
/// Slot of a shell row holding the owning atom.
pub const ATOM_OF: usize = 0;
/// Slot of a shell row holding the angular momentum.
pub const ANG_OF: usize = 1;
/// Slot of a shell row holding the number of primitives.
pub const NPRIM_OF: usize = 2;
/// Slot of a shell row holding the number of contractions.
pub const NCTR_OF: usize = 3;
/// Slot of a shell row holding the spinor flag `kappa`.
pub const KAPPA_OF: usize = 4;

/// Largest number of basis functions along one axis; the kernel addresses them with `i32`.
pub const MAX_AO: u64 = 0x7fff_ffff;

/// Representation of the basis functions of a shell.
#[derive(Clone, Copy, Debug, PartialEq, Eq, Structural)]
pub enum CintType {
    Spheric,
    Cartesian,
    Spinor,
}

/// Angular functions per contraction of a shell with angular momentum `l`.
pub open spec fn nang(ty: CintType, l: int, kappa: int) -> int {
    match ty {
        CintType::Spheric => 2 * l + 1,
        CintType::Cartesian => (l + 1) * (l + 2) / 2,
        CintType::Spinor => if kappa == 0 {
            4 * l + 2
        } else if kappa < 0 {
            2 * l + 2
        } else {
            2 * l
        },
    }
}

pub open spec fn ang_of(bas: Seq<i32>, s: int) -> int {
    bas[s * BAS_SLOTS + ANG_OF] as int
}

pub open spec fn nctr_of(bas: Seq<i32>, s: int) -> int {
    bas[s * BAS_SLOTS + NCTR_OF] as int
}

pub open spec fn kappa_of(bas: Seq<i32>, s: int) -> int {
    bas[s * BAS_SLOTS + KAPPA_OF] as int
}

/// Basis functions of shell `s`.
pub open spec fn shell_size(ty: CintType, bas: Seq<i32>, s: int) -> int {
    nctr_of(bas, s) * nang(ty, ang_of(bas, s), kappa_of(bas, s))
}

/// Basis functions of the shells before `s`: the offset of shell `s`.
pub open spec fn loc_of(ty: CintType, bas: Seq<i32>, s: int) -> int
    decreases s,
{
    if s <= 0 {
        0
    } else {
        loc_of(ty, bas, s - 1) + shell_size(ty, bas, s - 1)
    }
}

/// Shell `s` has no negative count.
pub open spec fn shell_nonneg(bas: Seq<i32>, s: int) -> bool {
    0 <= ang_of(bas, s) && 0 <= nctr_of(bas, s)
}

/// In every representation, shell `s` and the shells before it stay within one axis.
pub open spec fn shell_fits(bas: Seq<i32>, s: int) -> bool {
    &&& nang(CintType::Spheric, ang_of(bas, s), kappa_of(bas, s)) <= MAX_AO
    &&& nang(CintType::Cartesian, ang_of(bas, s), kappa_of(bas, s)) <= MAX_AO
    &&& nang(CintType::Spinor, ang_of(bas, s), kappa_of(bas, s)) <= MAX_AO
    &&& loc_of(CintType::Spheric, bas, s + 1) <= MAX_AO
    &&& loc_of(CintType::Cartesian, bas, s + 1) <= MAX_AO
    &&& loc_of(CintType::Spinor, bas, s + 1) <= MAX_AO
}

/// The first shell from `from` on that is negative or does not fit; `nbas` if none.
pub open spec fn first_bad_shell(bas: Seq<i32>, nbas: int, from: int) -> int
    decreases nbas - from,
{
    if from >= nbas {
        nbas
    } else if !shell_nonneg(bas, from) || !shell_fits(bas, from) {
        from
    } else {
        first_bad_shell(bas, nbas, from + 1)
    }
}

/// The first row from `from` on whose length is not `width`; `rows.len()` if none.
pub open spec fn first_bad_row(rows: Seq<Seq<i32>>, width: int, from: int) -> int
    decreases rows.len() - from,
{
    if from >= rows.len() {
        rows.len() as int
    } else if rows[from].len() != width {
        from
    } else {
        first_bad_row(rows, width, from + 1)
    }
}

/// Rows of a table as sequences.
pub open spec fn rows_of(rows: Seq<Vec<i32>>) -> Seq<Seq<i32>> {
    rows.map_values(|v: Vec<i32>| v@)
}

/// What `initial_r2c` reports for the given tables: `None` when they are accepted.
pub open spec fn table_fault(atm: Seq<Seq<i32>>, natm: i32, bas: Seq<Seq<i32>>, nbas: i32) -> Option<TableError> {
    if natm != atm.len() {
        Some(TableError::CountMismatch { stated: natm, rows: atm.len() as usize })
    } else if first_bad_row(atm, ATM_SLOTS as int, 0) < atm.len() {
        Some(TableError::RowLength { row: first_bad_row(atm, ATM_SLOTS as int, 0) as usize })
    } else if nbas != bas.len() {
        Some(TableError::CountMismatch { stated: nbas, rows: bas.len() as usize })
    } else if first_bad_row(bas, BAS_SLOTS as int, 0) < bas.len() {
        Some(TableError::RowLength { row: first_bad_row(bas, BAS_SLOTS as int, 0) as usize })
    } else {
        let s = first_bad_shell(bas.flatten(), nbas as int, 0);
        if s >= nbas {
            None
        } else if !shell_nonneg(bas.flatten(), s) {
            Some(TableError::NegativeShell { shell: s as usize })
        } else {
            Some(TableError::TooManyFunctions { shell: s as usize })
        }
    }
}

/// Why tables were refused.
#[derive(Clone, Copy, Debug, PartialEq, Eq, Structural)]
pub enum TableError {
    /// A row has the wrong number of slots.
    RowLength { row: usize },
    /// The stated count differs from the number of rows.
    CountMismatch { stated: i32, rows: usize },
    /// A shell has a negative angular momentum or contraction count.
    NegativeShell { shell: usize },
    /// The shells hold more basis functions than one axis can address.
    TooManyFunctions { shell: usize },
}

/// An output element of the wrong size for the representation.
#[derive(Clone, Copy, Debug, PartialEq, Eq, Structural)]
pub struct ElementError {
    pub cint_type: CintType,
    pub expected: usize,
    pub given: usize,
}

/// Bytes of one output element: a real number, or a complex one for spinors.
pub open spec fn element_bytes(ty: CintType) -> usize {
    match ty {
        CintType::Spinor => 16,
        _ => 8,
    }
}

/// The integer tables of a molecule, as the kernel reads them, and the
/// representation used to count basis functions. The parameter array of
/// floating-point values travels beside it.
#[derive(Debug)]
pub struct CINTR2CDATA {
    c_natm: i32,
    c_nbas: i32,
    c_necp: i32,
    cint_type: CintType,
    c_atm: Vec<i32>,
    c_bas: Vec<i32>,
    c_ecp: Vec<i32>,
}

impl CINTR2CDATA {
    pub closed spec fn nbas(&self) -> int {
        self.c_nbas as int
    }

    pub closed spec fn natm(&self) -> int {
        self.c_natm as int
    }

    pub closed spec fn necp(&self) -> int {
        self.c_necp as int
    }

    pub closed spec fn ty(&self) -> CintType {
        self.cint_type
    }

    /// The shell table, `BAS_SLOTS` entries per shell.
    pub closed spec fn bas(&self) -> Seq<i32> {
        self.c_bas@
    }

    /// The atom table, `ATM_SLOTS` entries per atom.
    pub closed spec fn atm(&self) -> Seq<i32> {
        self.c_atm@
    }

    /// The auxiliary shell table, appended after the ordinary shells when the kernel needs it.
    pub closed spec fn ecp(&self) -> Seq<i32> {
        self.c_ecp@
    }

    /// Basis functions of shell `s` in the current representation.
    pub open spec fn size(&self, s: int) -> int {
        shell_size(self.ty(), self.bas(), s)
    }

    /// Offset of shell `s` in the current representation.
    pub open spec fn loc(&self, s: int) -> int {
        loc_of(self.ty(), self.bas(), s)
    }

    pub closed spec fn wf(&self) -> bool {
        &&& 0 <= self.c_natm && 0 <= self.c_nbas && 0 <= self.c_necp
        &&& self.c_atm@.len() == self.c_natm * ATM_SLOTS
        &&& self.c_bas@.len() == self.c_nbas * BAS_SLOTS
        &&& self.c_ecp@.len() == self.c_necp * BAS_SLOTS
        &&& first_bad_shell(self.c_bas@, self.c_nbas as int, 0) == self.c_nbas
    }

    /// An empty catalog in the spherical representation.
    pub fn new() -> (r: CINTR2CDATA)
        ensures
            r.wf(),
            r.nbas() == 0,
            r.natm() == 0,
            r.necp() == 0,
            r.ty() == CintType::Spheric,
    {
        CINTR2CDATA {
            c_natm: 0,
            c_nbas: 0,
            c_necp: 0,
            cint_type: CintType::Spheric,
            c_atm: Vec::new(),
            c_bas: Vec::new(),
            c_ecp: Vec::new(),
        }
    }
}

/// Every shell before the first bad one is good.
pub proof fn lemma_shells_good(bas: Seq<i32>, nbas: int, from: int, s: int)
    requires
        0 <= from <= s < nbas,
        first_bad_shell(bas, nbas, from) == nbas,
    ensures
        shell_nonneg(bas, s),
        shell_fits(bas, s),
    decreases s - from,
{
    if from < s {
        lemma_shells_good(bas, nbas, from + 1, s);
    }
}

/// A shell with no negative count has no negative size.
pub proof fn lemma_size_nonneg(ty: CintType, bas: Seq<i32>, s: int)
    requires
        shell_nonneg(bas, s),
    ensures
        0 <= nang(ty, ang_of(bas, s), kappa_of(bas, s)),
        0 <= shell_size(ty, bas, s),
{
    let l = ang_of(bas, s);
    assert(0 <= (l + 1) * (l + 2)) by (nonlinear_arith)
        requires
            0 <= l,
    ;
    let a = nctr_of(bas, s);
    let b = nang(ty, l, kappa_of(bas, s));
    assert(0 <= a * b) by (nonlinear_arith)
        requires
            0 <= a,
            0 <= b,
    ;
}

/// Offsets grow with the shell index over shells with no negative count.
pub proof fn lemma_loc_mono(ty: CintType, bas: Seq<i32>, nbas: int, a: int, b: int)
    requires
        0 <= a <= b <= nbas,
        first_bad_shell(bas, nbas, 0) == nbas,
    ensures
        0 <= loc_of(ty, bas, a) <= loc_of(ty, bas, b),
    decreases b,
{
    if b > 0 {
        if a < b {
            lemma_loc_mono(ty, bas, nbas, a, b - 1);
        } else {
            lemma_loc_mono(ty, bas, nbas, 0, b - 1);
        }
        lemma_shells_good(bas, nbas, 0, b - 1);
        lemma_size_nonneg(ty, bas, b - 1);
    }
}

/// All offsets, and so all shell sizes, fit in one axis.
pub proof fn lemma_loc_bound(ty: CintType, bas: Seq<i32>, nbas: int, s: int)
    requires
        0 <= s <= nbas,
        first_bad_shell(bas, nbas, 0) == nbas,
    ensures
        0 <= loc_of(ty, bas, s) <= MAX_AO,
        s < nbas ==> 0 <= shell_size(ty, bas, s) <= MAX_AO,
        s < nbas ==> loc_of(ty, bas, s + 1) == loc_of(ty, bas, s) + shell_size(ty, bas, s),
{
    if s == nbas {
        if nbas > 0 {
            lemma_shells_good(bas, nbas, 0, nbas - 1);
        }
        lemma_loc_mono(ty, bas, nbas, s, s);
    } else {
        lemma_shells_good(bas, nbas, 0, s);
        lemma_size_nonneg(ty, bas, s);
        lemma_loc_mono(ty, bas, nbas, s, s + 1);
        lemma_loc_mono(ty, bas, nbas, 0, s);
    }
    assert(ty == CintType::Spheric || ty == CintType::Cartesian || ty == CintType::Spinor);
}

impl CINTR2CDATA {
    /// The counts of a well-formed catalog.
    pub proof fn lemma_wf_counts(&self)
        requires
            self.wf(),
        ensures
            0 <= self.nbas() <= i32::MAX,
            0 <= self.natm() <= i32::MAX,
            0 <= self.necp() <= i32::MAX,
            self.bas().len() == self.nbas() * BAS_SLOTS,
            self.atm().len() == self.natm() * ATM_SLOTS,
            self.ecp().len() == self.necp() * BAS_SLOTS,
            first_bad_shell(self.bas(), self.nbas(), 0) == self.nbas(),
    {
    }

    /// Facts about the tables of a well-formed catalog.
    pub proof fn lemma_wf(&self, s: int)
        requires
            self.wf(),
            0 <= s <= self.nbas(),
        ensures
            0 <= self.nbas() && self.bas().len() == self.nbas() * BAS_SLOTS,
            self.nbas() <= i32::MAX,
            0 <= self.loc(s) <= MAX_AO,
            0 <= self.loc(s) <= self.loc(self.nbas()),
            s < self.nbas() ==> shell_nonneg(self.bas(), s) && shell_fits(self.bas(), s),
            s < self.nbas() ==> 0 <= self.size(s) <= MAX_AO,
            s < self.nbas() ==> self.loc(s + 1) == self.loc(s) + self.size(s),
    {
        lemma_loc_bound(self.ty(), self.bas(), self.nbas(), s);
        lemma_loc_mono(self.ty(), self.bas(), self.nbas(), s, self.nbas());
        if s < self.nbas() {
            lemma_shells_good(self.bas(), self.nbas(), 0, s);
        }
    }

    /// Chooses how basis functions are counted.
    pub fn set_cint_type(&mut self, ctype: &CintType)
        requires
            old(self).wf(),
        ensures
            final(self).wf(),
            final(self).ty() == *ctype,
            final(self).nbas() == old(self).nbas(),
            final(self).natm() == old(self).natm(),
            final(self).necp() == old(self).necp(),
            final(self).bas() == old(self).bas(),
            final(self).atm() == old(self).atm(),
            final(self).ecp() == old(self).ecp(),
    {
        self.cint_type = *ctype;
    }

    /// Number of ordinary shells.
    pub fn n_shells(&self) -> (r: i32)
        ensures
            r == self.nbas(),
    {
        self.c_nbas
    }

    /// Number of atoms.
    pub fn n_atoms(&self) -> (r: i32)
        ensures
            r == self.natm(),
    {
        self.c_natm
    }

    /// The atom table, as the kernel reads it.
    pub fn atm_table(&self) -> (r: &Vec<i32>)
        ensures
            r@ == self.atm(),
    {
        &self.c_atm
    }

    /// The shell table, as the kernel reads it.
    pub fn bas_table(&self) -> (r: &Vec<i32>)
        ensures
            r@ == self.bas(),
    {
        &self.c_bas
    }

    /// The current representation.
    pub fn cint_type(&self) -> (r: CintType)
        ensures
            r == self.ty(),
    {
        self.cint_type
    }

    /// Checks that output elements of `given` bytes suit the representation:
    /// 8 for spherical and Cartesian functions, 16 for spinors.
    pub fn check_float_type(&self, given: usize) -> (r: Result<(), ElementError>)
        ensures
            r is Ok <==> given == element_bytes(self.ty()),
            r is Err ==> r->Err_0 == (ElementError { cint_type: self.ty(), expected: element_bytes(self.ty()), given }),
    {
        let expected: usize = match self.cint_type {
            CintType::Spinor => 16,
            _ => 8,
        };
        if given != expected {
            return Err(ElementError { cint_type: self.cint_type, expected, given });
        }
        Ok(())
    }

    /// Reads slot `slot` of shell `id_bas`.
    fn bas_slot(&self, id_bas: i32, slot: usize) -> (r: i32)
        requires
            self.wf(),
            0 <= id_bas < self.nbas(),
            slot < BAS_SLOTS,
        ensures
            r == self.bas()[id_bas * BAS_SLOTS + slot],
    {
        proof {
            self.lemma_wf(id_bas as int);
            assert(id_bas * BAS_SLOTS + slot < self.nbas() * BAS_SLOTS) by (nonlinear_arith)
                requires
                    0 <= id_bas < self.nbas(),
                    slot < BAS_SLOTS,
            ;
        }
        let len = self.c_bas.len();
        assert(id_bas * BAS_SLOTS + slot < len);
        self.c_bas[id_bas as usize * BAS_SLOTS + slot]
    }

    /// Basis functions of shell `id_bas` in the spherical representation: `nctr * (2l + 1)`.
    pub fn cgto_size_sph(&self, id_bas: i32) -> (r: usize)
        requires
            self.wf(),
            0 <= id_bas < self.nbas(),
        ensures
            r == shell_size(CintType::Spheric, self.bas(), id_bas as int),
    {
        proof {
            self.lemma_wf(id_bas as int);
            lemma_loc_bound(CintType::Spheric, self.bas(), self.nbas(), id_bas as int);
        }
        let nctr = self.bas_slot(id_bas, NCTR_OF) as usize;
        let l = self.bas_slot(id_bas, ANG_OF) as usize;
        let nang = 2 * l + 1;
        nctr * nang
    }

    /// Basis functions of shell `id_bas` in the Cartesian representation: `nctr * (l+1)(l+2)/2`.
    pub fn cgto_size_cart(&self, id_bas: i32) -> (r: usize)
        requires
            self.wf(),
            0 <= id_bas < self.nbas(),
        ensures
            r == shell_size(CintType::Cartesian, self.bas(), id_bas as int),
    {
        proof {
            self.lemma_wf(id_bas as int);
            lemma_loc_bound(CintType::Cartesian, self.bas(), self.nbas(), id_bas as int);
        }
        let nctr = self.bas_slot(id_bas, NCTR_OF) as usize;
        let l = self.bas_slot(id_bas, ANG_OF) as usize;
        let nang = (l + 1) * (l + 2) / 2;
        nctr * nang
    }

    /// Basis functions of shell `id_bas` in the spinor representation:
    /// `nctr` times `4l + 2`, `2l + 2` or `2l` as `kappa` is zero, negative or positive.
    pub fn cgto_size_spinor(&self, id_bas: i32) -> (r: usize)
        requires
            self.wf(),
            0 <= id_bas < self.nbas(),
        ensures
            r == shell_size(CintType::Spinor, self.bas(), id_bas as int),
    {
        proof {
            self.lemma_wf(id_bas as int);
            lemma_loc_bound(CintType::Spinor, self.bas(), self.nbas(), id_bas as int);
        }
        let nctr = self.bas_slot(id_bas, NCTR_OF) as usize;
        let l = self.bas_slot(id_bas, ANG_OF) as usize;
        let kappa = self.bas_slot(id_bas, KAPPA_OF);
        if kappa == 0 {
            nctr * (4 * l + 2)
        } else if kappa < 0 {
            nctr * (2 * l + 2)
        } else {
            nctr * (2 * l)
        }
    }

    /// Basis functions of shell `id_bas` in the current representation.
    pub fn cgto_size(&self, id_bas: i32) -> (r: usize)
        requires
            self.wf(),
            0 <= id_bas < self.nbas(),
        ensures
            r == self.size(id_bas as int),
    {
        match self.cint_type {
            CintType::Spheric => self.cgto_size_sph(id_bas),
            CintType::Cartesian => self.cgto_size_cart(id_bas),
            CintType::Spinor => self.cgto_size_spinor(id_bas),
        }
    }

    /// Offsets of all shells: `nbas + 1` entries, from 0 to the number of basis functions.
    pub fn cgto_loc(&self) -> (r: Vec<usize>)
        requires
            self.wf(),
        ensures
            r@.len() == self.nbas() + 1,
            forall|s: int| 0 <= s <= self.nbas() ==> r@[s] == self.loc(s),
    {
        proof {
            self.lemma_wf(0);
        }
        let mut loc: Vec<usize> = Vec::new();
        loc.push(0);
        let mut idx: i32 = 0;
        while idx < self.c_nbas
            invariant
                self.wf(),
                0 <= idx <= self.nbas(),
                loc@.len() == idx + 1,
                forall|s: int| 0 <= s <= idx ==> loc@[s] == self.loc(s),
            decreases self.nbas() - idx,
        {
            proof {
                self.lemma_wf(idx as int);
                self.lemma_wf(idx + 1);
            }
            let last = loc[idx as usize];
            let size = self.cgto_size(idx);
            loc.push(last + size);
            idx += 1;
        }
        loc
    }
}

/// Row `i` of `rows`, as a sequence, for every row.
proof fn lemma_rows_of(rows: Seq<Vec<i32>>, i: int)
    requires
        0 <= i < rows.len(),
    ensures
        rows_of(rows)[i] == rows[i]@,
        rows_of(rows).len() == rows.len(),
{
}

/// Concatenates rows that were checked to have `width` entries each.
fn flatten_rows(rows: &Vec<Vec<i32>>, width: usize) -> (r: Vec<i32>)
    requires
        forall|i: int| 0 <= i < rows@.len() ==> (#[trigger] rows@[i])@.len() == width,
    ensures
        r@ == rows_of(rows@).flatten(),
{
    let mut flat: Vec<i32> = Vec::new();
    let mut i: usize = 0;
    while i < rows.len()
        invariant
            i <= rows@.len(),
            flat@ == rows_of(rows@).subrange(0, i as int).flatten(),
        decreases rows@.len() - i,
    {
        let row = &rows[i];
        let ghost before = flat@;
        let mut k: usize = 0;
        while k < row.len()
            invariant
                k <= row@.len(),
                flat@ == before + row@.subrange(0, k as int),
            decreases row@.len() - k,
        {
            flat.push(row[k]);
            k += 1;
            assert(flat@ =~= before + row@.subrange(0, k as int));
        }
        proof {
            assert(row@.subrange(0, row@.len() as int) =~= row@);
            assert(rows_of(rows@).subrange(0, i + 1) =~= rows_of(rows@).subrange(0, i as int).push(row@));
            rows_of(rows@).subrange(0, i as int).lemma_flatten_push(row@);
        }
        i += 1;
    }
    assert(rows_of(rows@).subrange(0, rows@.len() as int) =~= rows_of(rows@));
    flat
}

/// The first row of `rows` that does not have `width` entries; `rows.len()` if none.
fn find_bad_row(rows: &Vec<Vec<i32>>, width: usize) -> (r: usize)
    ensures
        r == first_bad_row(rows_of(rows@), width as int, 0),
        r <= rows@.len(),
        r == rows@.len() ==> forall|i: int| 0 <= i < rows@.len() ==> (#[trigger] rows@[i])@.len() == width,
{
    let mut i: usize = 0;
    while i < rows.len()
        invariant
            i <= rows@.len(),
            first_bad_row(rows_of(rows@), width as int, 0) == first_bad_row(rows_of(rows@), width as int, i as int),
            forall|j: int| 0 <= j < i ==> (#[trigger] rows@[j])@.len() == width,
        decreases rows@.len() - i,
    {
        proof {
            lemma_rows_of(rows@, i as int);
        }
        if rows[i].len() != width {
            return i;
        }
        i += 1;
    }
    i
}

/// Angular functions per contraction in each representation, as `u64`.
fn nang_all(l: i32, kappa: i32) -> (r: (u64, u64, u64))
    requires
        0 <= l,
    ensures
        r.0 == nang(CintType::Spheric, l as int, kappa as int),
        r.1 == nang(CintType::Cartesian, l as int, kappa as int),
        r.2 == nang(CintType::Spinor, l as int, kappa as int),
{
    let l = l as u64;
    assert((l + 1) * (l + 2) <= 0x4000_0001_8000_0002u64) by (nonlinear_arith)
        requires
            l <= 0x7fff_ffffu64,
    ;
    let spinor = if kappa == 0 {
        4 * l + 2
    } else if kappa < 0 {
        2 * l + 2
    } else {
        2 * l
    };
    (2 * l + 1, (l + 1) * (l + 2) / 2, spinor)
}

impl CINTR2CDATA {
    /// Takes the atom and shell tables of a molecule, one row per atom or shell,
    /// after checking that every representation can count their basis functions.
    /// On a refusal nothing changes.
    pub fn initial_r2c(&mut self, atm: &Vec<Vec<i32>>, natm: i32, bas: &Vec<Vec<i32>>, nbas: i32) -> (r: Result<(), TableError>)
        requires
            old(self).wf(),
        ensures
            match table_fault(rows_of(atm@), natm, rows_of(bas@), nbas) {
                Some(e) => r == Err::<(), TableError>(e) && *final(self) == *old(self),
                None => {
                    &&& r == Ok::<(), TableError>(())
                    &&& final(self).wf()
                    &&& final(self).natm() == natm && final(self).nbas() == nbas && final(self).necp() == 0
                    &&& final(self).atm() == rows_of(atm@).flatten()
                    &&& final(self).bas() == rows_of(bas@).flatten()
                    &&& final(self).ecp() == Seq::<i32>::empty()
                    &&& final(self).ty() == old(self).ty()
                },
            },
    {
        if natm < 0 || natm as usize != atm.len() {
            return Err(TableError::CountMismatch { stated: natm, rows: atm.len() });
        }
        let bad = find_bad_row(atm, ATM_SLOTS);
        if bad < atm.len() {
            return Err(TableError::RowLength { row: bad });
        }
        if nbas < 0 || nbas as usize != bas.len() {
            return Err(TableError::CountMismatch { stated: nbas, rows: bas.len() });
        }
        let bad = find_bad_row(bas, BAS_SLOTS);
        if bad < bas.len() {
            return Err(TableError::RowLength { row: bad });
        }
        let flat_atm = flatten_rows(atm, ATM_SLOTS);
        let flat_bas = flatten_rows(bas, BAS_SLOTS);
        let ghost fb = flat_bas@;
        let fb_len = flat_bas.len();
        proof {
            lemma_rows_width(rows_of(bas@), BAS_SLOTS as int, 0);
            lemma_rows_width(rows_of(atm@), ATM_SLOTS as int, 0);
            lemma_flat_len(rows_of(bas@), BAS_SLOTS as int);
            lemma_flat_len(rows_of(atm@), ATM_SLOTS as int);
        }
        let mut tot_sph: u64 = 0;
        let mut tot_cart: u64 = 0;
        let mut tot_spin: u64 = 0;
        let mut s: i32 = 0;
        while s < nbas
            invariant
                0 <= s <= nbas,
                fb == flat_bas@,
                fb == rows_of(bas@).flatten(),
                fb.len() == nbas * BAS_SLOTS,
                fb_len == fb.len(),
                *self == *old(self),
                natm == atm@.len() && nbas == bas@.len(),
                first_bad_row(rows_of(atm@), ATM_SLOTS as int, 0) == atm@.len(),
                first_bad_row(rows_of(bas@), BAS_SLOTS as int, 0) == bas@.len(),
                first_bad_shell(fb, nbas as int, 0) == first_bad_shell(fb, nbas as int, s as int),
                tot_sph == loc_of(CintType::Spheric, fb, s as int),
                tot_cart == loc_of(CintType::Cartesian, fb, s as int),
                tot_spin == loc_of(CintType::Spinor, fb, s as int),
                tot_sph <= MAX_AO && tot_cart <= MAX_AO && tot_spin <= MAX_AO,
            decreases nbas - s,
        {
            let base = s as usize * BAS_SLOTS;
            proof {
                assert(s * BAS_SLOTS + BAS_SLOTS <= nbas * BAS_SLOTS) by (nonlinear_arith)
                    requires
                        0 <= s < nbas,
                ;
            }
            let l = flat_bas[base + ANG_OF];
            let nctr = flat_bas[base + NCTR_OF];
            let kappa = flat_bas[base + KAPPA_OF];
            if l < 0 || nctr < 0 {
                return Err(TableError::NegativeShell { shell: s as usize });
            }
            let (a_sph, a_cart, a_spin) = nang_all(l, kappa);
            if a_sph > MAX_AO || a_cart > MAX_AO || a_spin > MAX_AO {
                return Err(TableError::TooManyFunctions { shell: s as usize });
            }
            let c = nctr as u64;
            proof {
                assert(c * a_sph <= 0x7fff_ffffu64 * 0x7fff_ffffu64) by (nonlinear_arith)
                    requires
                        c <= 0x7fff_ffffu64,
                        a_sph <= 0x7fff_ffffu64,
                ;
                assert(c * a_cart <= 0x7fff_ffffu64 * 0x7fff_ffffu64) by (nonlinear_arith)
                    requires
                        c <= 0x7fff_ffffu64,
                        a_cart <= 0x7fff_ffffu64,
                ;
                assert(c * a_spin <= 0x7fff_ffffu64 * 0x7fff_ffffu64) by (nonlinear_arith)
                    requires
                        c <= 0x7fff_ffffu64,
                        a_spin <= 0x7fff_ffffu64,
                ;
            }
            let n_sph = tot_sph + c * a_sph;
            let n_cart = tot_cart + c * a_cart;
            let n_spin = tot_spin + c * a_spin;
            if n_sph > MAX_AO || n_cart > MAX_AO || n_spin > MAX_AO {
                return Err(TableError::TooManyFunctions { shell: s as usize });
            }
            tot_sph = n_sph;
            tot_cart = n_cart;
            tot_spin = n_spin;
            s += 1;
        }
        self.c_atm = flat_atm;
        self.c_bas = flat_bas;
        self.c_ecp = Vec::new();
        self.c_natm = natm;
        self.c_nbas = nbas;
        self.c_necp = 0;
        Ok(())
    }
}

/// No bad row from `from` on means every row from `from` on has `width` entries.
proof fn lemma_rows_width(rows: Seq<Seq<i32>>, width: int, from: int)
    requires
        0 <= from,
        first_bad_row(rows, width, from) == rows.len(),
    ensures
        forall|i: int| from <= i < rows.len() ==> (#[trigger] rows[i]).len() == width,
    decreases rows.len() - from,
{
    if from < rows.len() {
        lemma_rows_width(rows, width, from + 1);
    }
}

/// Rows of equal width flatten to width times the number of rows.
proof fn lemma_flat_len(rows: Seq<Seq<i32>>, width: int)
    requires
        0 <= width,
        forall|i: int| 0 <= i < rows.len() ==> (#[trigger] rows[i]).len() == width,
    ensures
        rows.flatten().len() == rows.len() * width,
    decreases rows.len(),
{
    if rows.len() > 0 {
        let rest = rows.drop_first();
        assert(forall|i: int| 0 <= i < rest.len() ==> rest[i] == rows[i + 1]);
        lemma_flat_len(rest, width);
        let n = rows.len() as int;
        assert(width + (n - 1) * width == n * width) by (nonlinear_arith);
    }
}

/// What `initial_r2c_with_ecp` reports: the faults of the ordinary tables
/// first, then those of the auxiliary shell table.
pub open spec fn ecp_table_fault(atm: Seq<Seq<i32>>, natm: i32, bas: Seq<Seq<i32>>, nbas: i32, ecp: Seq<Seq<i32>>, necp: i32) -> Option<TableError> {
    if table_fault(atm, natm, bas, nbas).is_some() {
        table_fault(atm, natm, bas, nbas)
    } else if necp != ecp.len() {
        Some(TableError::CountMismatch { stated: necp, rows: ecp.len() as usize })
    } else if first_bad_row(ecp, BAS_SLOTS as int, 0) < ecp.len() {
        Some(TableError::RowLength { row: first_bad_row(ecp, BAS_SLOTS as int, 0) as usize })
    } else {
        None
    }
}

impl CINTR2CDATA {
    /// As `initial_r2c`, with a table of auxiliary shells (such as effective
    /// core potentials) that the kernel reads after the ordinary ones and that
    /// no output axis addresses.
    pub fn initial_r2c_with_ecp(
        &mut self,
        atm: &Vec<Vec<i32>>,
        natm: i32,
        bas: &Vec<Vec<i32>>,
        nbas: i32,
        ecp: &Vec<Vec<i32>>,
        necp: i32,
    ) -> (r: Result<(), TableError>)
        requires
            old(self).wf(),
        ensures
            match ecp_table_fault(rows_of(atm@), natm, rows_of(bas@), nbas, rows_of(ecp@), necp) {
                Some(e) => r == Err::<(), TableError>(e) && *final(self) == *old(self),
                None => {
                    &&& r == Ok::<(), TableError>(())
                    &&& final(self).wf()
                    &&& final(self).natm() == natm && final(self).nbas() == nbas && final(self).necp() == necp
                    &&& final(self).atm() == rows_of(atm@).flatten()
                    &&& final(self).bas() == rows_of(bas@).flatten()
                    &&& final(self).ecp() == rows_of(ecp@).flatten()
                    &&& final(self).ty() == old(self).ty()
                },
            },
    {
        let ghost before = *self;
        if necp < 0 || necp as usize != ecp.len() {
            let r = self.initial_r2c_checked_only(atm, natm, bas, nbas);
            return match r {
                Err(e) => Err(e),
                Ok(()) => Err(TableError::CountMismatch { stated: necp, rows: ecp.len() }),
            };
        }
        let bad = find_bad_row(ecp, BAS_SLOTS);
        if bad < ecp.len() {
            let r = self.initial_r2c_checked_only(atm, natm, bas, nbas);
            return match r {
                Err(e) => Err(e),
                Ok(()) => Err(TableError::RowLength { row: bad }),
            };
        }
        match self.initial_r2c(atm, natm, bas, nbas) {
            Err(e) => Err(e),
            Ok(()) => {
                let flat_ecp = flatten_rows(ecp, BAS_SLOTS);
                proof {
                    lemma_rows_width(rows_of(ecp@), BAS_SLOTS as int, 0);
                    lemma_flat_len(rows_of(ecp@), BAS_SLOTS as int);
                }
                self.c_ecp = flat_ecp;
                self.c_necp = necp;
                Ok(())
            },
        }
    }

    /// What `initial_r2c` would report, without taking the tables.
    fn initial_r2c_checked_only(&self, atm: &Vec<Vec<i32>>, natm: i32, bas: &Vec<Vec<i32>>, nbas: i32) -> (r: Result<(), TableError>)
        requires
            self.wf(),
        ensures
            match table_fault(rows_of(atm@), natm, rows_of(bas@), nbas) {
                Some(e) => r == Err::<(), TableError>(e),
                None => r == Ok::<(), TableError>(()),
            },
    {
        let mut probe = CINTR2CDATA::new();
        probe.initial_r2c(atm, natm, bas, nbas)
    }

    /// Number of auxiliary shells.
    pub fn n_ecp_shells(&self) -> (r: i32)
        ensures
            r == self.necp(),
    {
        self.c_necp
    }
}

/// The tables the kernel reads for integrals over auxiliary shells: the
/// ordinary shells followed by the auxiliary ones, and where the latter start.
///
/// The auxiliary shells are terms of a potential, not basis functions (their
/// angular momentum may be negative), so no output axis addresses them: the
/// slices of such a call are checked against the ordinary shells of the
/// catalog, with `CINTR2CDATA::check_shl_slices`.
#[derive(Debug)]
pub struct ECPData {
    c_nbas: i32,
    c_necp: i32,
    c_atm: Vec<i32>,
    c_bas: Vec<i32>,
}

impl ECPData {
    /// Shells the kernel sees: ordinary then auxiliary.
    pub closed spec fn kernel_bas(&self) -> Seq<i32> {
        self.c_bas@
    }

    /// Atoms the kernel sees.
    pub closed spec fn kernel_atm(&self) -> Seq<i32> {
        self.c_atm@
    }

    /// Where the auxiliary shells start.
    pub closed spec fn ecp_offset(&self) -> int {
        self.c_nbas as int
    }

    /// Number of auxiliary shells.
    pub closed spec fn n_ecp(&self) -> int {
        self.c_necp as int
    }

    /// An empty set of tables.
    pub fn new() -> (r: ECPData)
        ensures
            r.kernel_bas() == Seq::<i32>::empty(),
            r.kernel_atm() == Seq::<i32>::empty(),
            r.ecp_offset() == 0,
            r.n_ecp() == 0,
    {
        ECPData { c_nbas: 0, c_necp: 0, c_atm: Vec::new(), c_bas: Vec::new() }
    }

    /// Appends the auxiliary shells of `cint_data` to its ordinary ones.
    pub fn from_cint_data(cint_data: &CINTR2CDATA) -> (r: ECPData)
        requires
            cint_data.wf(),
        ensures
            r.kernel_bas() == cint_data.bas() + cint_data.ecp(),
            r.kernel_atm() == cint_data.atm(),
            r.ecp_offset() == cint_data.nbas(),
            r.n_ecp() == cint_data.necp(),
    {
        let mut bas = cint_data.c_bas.clone();
        let mut k: usize = 0;
        let ghost b0 = bas@;
        assert(b0 == cint_data.bas());
        while k < cint_data.c_ecp.len()
            invariant
                k <= cint_data.c_ecp@.len(),
                b0 == cint_data.c_bas@,
                bas@ == b0 + cint_data.c_ecp@.subrange(0, k as int),
            decreases cint_data.c_ecp@.len() - k,
        {
            bas.push(cint_data.c_ecp[k]);
            k += 1;
            assert(bas@ =~= b0 + cint_data.c_ecp@.subrange(0, k as int));
        }
        assert(cint_data.c_ecp@.subrange(0, cint_data.c_ecp@.len() as int) =~= cint_data.c_ecp@);
        ECPData {
            c_nbas: cint_data.c_nbas,
            c_necp: cint_data.c_necp,
            c_atm: cint_data.c_atm.clone(),
            c_bas: bas,
        }
    }

    /// The shell table the kernel reads.
    pub fn kernel_shells(&self) -> (r: &Vec<i32>)
        ensures
            r@ == self.kernel_bas(),
    {
        &self.c_bas
    }

    /// The atom table the kernel reads.
    pub fn kernel_atoms(&self) -> (r: &Vec<i32>)
        ensures
            r@ == self.kernel_atm(),
    {
        &self.c_atm
    }

    /// Shells the kernel reads, ordinary and auxiliary.
    pub fn n_kernel_shells(&self) -> (r: i32)
        requires
            self.ecp_offset() + self.n_ecp() <= i32::MAX,
            0 <= self.ecp_offset(),
            0 <= self.n_ecp(),
        ensures
            r == self.ecp_offset() + self.n_ecp(),
    {
        self.c_nbas + self.c_necp
    }

    /// Where the auxiliary shells start, and how many there are: the two values
    /// the kernel reads from the reserved slots of the parameter array.
    pub fn ecp_slots(&self) -> (r: (i32, i32))
        ensures
            r.0 == self.ecp_offset(),
            r.1 == self.n_ecp(),
    {
        (self.c_nbas, self.c_necp)
    }
}

} // verus!
