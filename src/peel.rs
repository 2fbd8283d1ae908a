//! Flag-aware correction of one data set by a calibration solved on another.
//!
//! For each row the corrected model is `data * model / corrected`, taken
//! element by element. Two guards keep it safe: a divisor of magnitude zero,
//! or one at a flagged element, is replaced by one before the division; a
//! quotient that is not finite, or one at a flagged element, is replaced by
//! zero after it. Samples are single-precision complex numbers, held here by
//! the IEEE-754 bit patterns of their two parts; the multiplications and the
//! division themselves are done by the caller between the two guards.

use vstd::prelude::*;

verus! {

/// The sign bit of an IEEE-754 single.
pub const F32_SIGN_BIT: u32 = 0x8000_0000;

/// The bit pattern of positive infinity: magnitudes at or above it are not
/// finite.
pub const F32_INFINITY_BITS: u32 = 0x7f80_0000;

/// The bit pattern of `1.0`.
pub const F32_ONE_BITS: u32 = 0x3f80_0000;

/// A single-precision complex sample, as the bit patterns of its parts.
#[derive(Clone, Copy, Debug, PartialEq, Eq, Structural, Hash)]
pub struct ComplexBits {
    pub re: u32,
    pub im: u32,
}

/// The bit pattern with the sign bit cleared.
pub open spec fn f32_magnitude(bits: u32) -> nat {
    if bits >= F32_SIGN_BIT {
        (bits - F32_SIGN_BIT) as nat
    } else {
        bits as nat
    }
}

/// Whether both parts are zero (of either sign), that is the magnitude is 0.
pub open spec fn spec_is_zero(c: ComplexBits) -> bool {
    f32_magnitude(c.re) == 0 && f32_magnitude(c.im) == 0
}

/// Whether both parts are finite: neither infinite nor NaN.
pub open spec fn spec_is_finite(c: ComplexBits) -> bool {
    f32_magnitude(c.re) < F32_INFINITY_BITS && f32_magnitude(c.im) < F32_INFINITY_BITS
}

/// `1 + 0i`.
pub open spec fn one() -> ComplexBits {
    ComplexBits { re: F32_ONE_BITS, im: 0 }
}

/// `0 + 0i`.
pub open spec fn zero() -> ComplexBits {
    ComplexBits { re: 0, im: 0 }
}

fn f32_magnitude_of(bits: u32) -> (r: u32)
    ensures
        r as nat == f32_magnitude(bits),
{
    if bits >= F32_SIGN_BIT {
        bits - F32_SIGN_BIT
    } else {
        bits
    }
}

impl ComplexBits {
    /// `1 + 0i`.
    pub fn one() -> (r: ComplexBits)
        ensures
            r == one(),
    {
        ComplexBits { re: F32_ONE_BITS, im: 0 }
    }

    /// `0 + 0i`.
    pub fn zero() -> (r: ComplexBits)
        ensures
            r == zero(),
    {
        ComplexBits { re: 0, im: 0 }
    }

    /// Whether the magnitude is exactly zero.
    pub fn is_zero(&self) -> (r: bool)
        ensures
            r == spec_is_zero(*self),
    {
        f32_magnitude_of(self.re) == 0 && f32_magnitude_of(self.im) == 0
    }

    /// Whether both parts are finite.
    pub fn is_finite(&self) -> (r: bool)
        ensures
            r == spec_is_finite(*self),
    {
        f32_magnitude_of(self.re) < F32_INFINITY_BITS && f32_magnitude_of(self.im)
            < F32_INFINITY_BITS
    }
}

/// The flags after the divisor guard: an element is flagged when either
/// table flags it or its divisor is zero.
pub open spec fn guarded_flags(main_flag: Seq<bool>, work_flag: Seq<bool>, corrected: Seq<ComplexBits>) -> Seq<bool> {
    Seq::new(main_flag.len(), |i: int| main_flag[i] || work_flag[i] || spec_is_zero(corrected[i]))
}

/// The divisors after the guard: one at every flagged element.
pub open spec fn guarded_divisors(flags: Seq<bool>, corrected: Seq<ComplexBits>) -> Seq<ComplexBits> {
    Seq::new(flags.len(), |i: int| if flags[i] { one() } else { corrected[i] })
}

/// The flags after the quotient guard: flagged before, or not finite.
pub open spec fn final_flags(flags: Seq<bool>, derived: Seq<ComplexBits>) -> Seq<bool> {
    Seq::new(flags.len(), |i: int| flags[i] || !spec_is_finite(derived[i]))
}

/// The values after the quotient guard: zero at every flagged element.
pub open spec fn final_values(flags: Seq<bool>, derived: Seq<ComplexBits>) -> Seq<ComplexBits> {
    Seq::new(flags.len(), |i: int| if final_flags(flags, derived)[i] { zero() } else { derived[i] })
}

/// Why a row could not be processed.
#[derive(Clone, Copy, Debug, PartialEq, Eq, Structural)]
pub enum ShapeError {
    /// The flag and sample arrays of a row differ in size.
    ShapeMismatch,
}

/// The combined flags of a row and the divisors that are safe to use.
pub struct GuardedRow {
    pub flags: Vec<bool>,
    pub divisors: Vec<ComplexBits>,
}

/// Combines the two tables' flags of one row and guards the divisors.
///
/// An element is flagged when either table flags it or its `corrected`
/// value is zero; at every flagged element the divisor becomes `1 + 0i`.
/// Fails exactly when the three arrays differ in size.
pub fn guard_divisors(
    main_flag: &Vec<bool>,
    work_flag: &Vec<bool>,
    corrected: &Vec<ComplexBits>,
) -> (r: Result<GuardedRow, ShapeError>)
    ensures
        r.is_ok() <==> (main_flag@.len() == work_flag@.len() && main_flag@.len()
            == corrected@.len()),
        r.is_err() ==> r == Err::<GuardedRow, ShapeError>(ShapeError::ShapeMismatch),
        r.is_ok() ==> r.unwrap().flags@ == guarded_flags(main_flag@, work_flag@, corrected@),
        r.is_ok() ==> r.unwrap().divisors@ == guarded_divisors(
            guarded_flags(main_flag@, work_flag@, corrected@),
            corrected@,
        ),
{
    if main_flag.len() != work_flag.len() || main_flag.len() != corrected.len() {
        return Err(ShapeError::ShapeMismatch);
    }
    let ghost g = guarded_flags(main_flag@, work_flag@, corrected@);
    let mut flags: Vec<bool> = Vec::new();
    let mut divisors: Vec<ComplexBits> = Vec::new();
    let mut i: usize = 0;
    while i < main_flag.len()
        invariant
            main_flag@.len() == work_flag@.len(),
            main_flag@.len() == corrected@.len(),
            g == guarded_flags(main_flag@, work_flag@, corrected@),
            0 <= i <= main_flag@.len(),
            flags@ == g.subrange(0, i as int),
            divisors@ == guarded_divisors(g, corrected@).subrange(0, i as int),
        decreases main_flag@.len() - i,
    {
        let f = main_flag[i] || work_flag[i] || corrected[i].is_zero();
        flags.push(f);
        if f {
            divisors.push(ComplexBits::one());
        } else {
            divisors.push(corrected[i]);
        }
        i = i + 1;
        proof {
            assert(flags@ =~= g.subrange(0, i as int));
            assert(divisors@ =~= guarded_divisors(g, corrected@).subrange(0, i as int));
        }
    }
    proof {
        assert(flags@ =~= g);
        assert(divisors@ =~= guarded_divisors(g, corrected@));
    }
    Ok(GuardedRow { flags, divisors })
}

/// The flags and values of a row after the division.
pub struct FinishedRow {
    pub flags: Vec<bool>,
    pub values: Vec<ComplexBits>,
}

/// Guards the quotients of one row: an element whose quotient is not finite
/// becomes flagged, and every flagged element's value becomes `0 + 0i`.
pub fn guard_quotients(flags: &Vec<bool>, derived: &Vec<ComplexBits>) -> (r: FinishedRow)
    requires
        flags@.len() == derived@.len(),
    ensures
        r.flags@ == final_flags(flags@, derived@),
        r.values@ == final_values(flags@, derived@),
{
    let ghost ff = final_flags(flags@, derived@);
    let ghost fv = final_values(flags@, derived@);
    let mut out_flags: Vec<bool> = Vec::new();
    let mut values: Vec<ComplexBits> = Vec::new();
    let mut i: usize = 0;
    while i < flags.len()
        invariant
            flags@.len() == derived@.len(),
            ff == final_flags(flags@, derived@),
            fv == final_values(flags@, derived@),
            0 <= i <= flags@.len(),
            out_flags@ == ff.subrange(0, i as int),
            values@ == fv.subrange(0, i as int),
        decreases flags@.len() - i,
    {
        let f = flags[i] || !derived[i].is_finite();
        out_flags.push(f);
        if f {
            values.push(ComplexBits::zero());
        } else {
            values.push(derived[i]);
        }
        i = i + 1;
        proof {
            assert(out_flags@ =~= ff.subrange(0, i as int));
            assert(values@ =~= fv.subrange(0, i as int));
        }
    }
    proof {
        assert(out_flags@ =~= ff);
        assert(values@ =~= fv);
    }
    FinishedRow { flags: out_flags, values }
}

/// Flags only grow. Every element that either table flags is flagged after
/// the divisor guard, and every element flagged after the divisor guard is
/// still flagged after the quotient guard, whatever the quotients are.
pub proof fn flag_monotonicity(
    main_flag: Seq<bool>,
    work_flag: Seq<bool>,
    corrected: Seq<ComplexBits>,
    derived: Seq<ComplexBits>,
)
    requires
        main_flag.len() == work_flag.len(),
        main_flag.len() == corrected.len(),
        main_flag.len() == derived.len(),
    ensures
        ({
            let g = guarded_flags(main_flag, work_flag, corrected);
            let f = final_flags(g, derived);
            &&& g.len() == main_flag.len()
            &&& f.len() == main_flag.len()
            &&& forall|i: int|
                0 <= i < main_flag.len() ==> (main_flag[i] || work_flag[i]) ==> #[trigger] g[i]
            &&& forall|i: int| 0 <= i < main_flag.len() ==> g[i] ==> #[trigger] f[i]
        }),
{
}

/// A divisor of magnitude zero always ends flagged, with the value zero,
/// whatever the quotient at that element was.
pub proof fn zero_guard(
    main_flag: Seq<bool>,
    work_flag: Seq<bool>,
    corrected: Seq<ComplexBits>,
    derived: Seq<ComplexBits>,
    i: int,
)
    requires
        main_flag.len() == work_flag.len(),
        main_flag.len() == corrected.len(),
        main_flag.len() == derived.len(),
        0 <= i < main_flag.len(),
        spec_is_zero(corrected[i]),
    ensures
        ({
            let g = guarded_flags(main_flag, work_flag, corrected);
            &&& guarded_divisors(g, corrected)[i] == one()
            &&& final_flags(g, derived)[i]
            &&& final_values(g, derived)[i] == zero()
        }),
{
}

/// Whether `name` is one of the column names `names`.
pub open spec fn has_column(names: Seq<String>, name: Seq<char>) -> bool {
    exists|i: int| 0 <= i < names.len() && (#[trigger] names[i])@ == name
}

/// Whether every name of `wanted` is among `names`.
pub open spec fn has_all_columns(names: Seq<String>, wanted: Seq<Seq<char>>) -> bool {
    forall|k: int| 0 <= k < wanted.len() ==> has_column(names, #[trigger] wanted[k])
}

/// Whether `column` is the first name of `wanted` that `names` lacks.
pub open spec fn is_first_missing(names: Seq<String>, wanted: Seq<Seq<char>>, column: Seq<char>) -> bool {
    exists|k: int|
        0 <= k < wanted.len() && #[trigger] wanted[k] == column && !has_column(names, wanted[k])
            && has_all_columns(names, wanted.subrange(0, k))
}

/// The columns that the table receiving the model must have.
pub open spec fn main_columns() -> Seq<Seq<char>> {
    seq!["FLAG"@, "MODEL_DATA"@]
}

/// The columns that the table holding the calibration must have.
pub open spec fn work_columns() -> Seq<Seq<char>> {
    seq!["FLAG"@, "DATA"@, "MODEL_DATA"@, "CORRECTED_DATA"@]
}

/// The index of the first name of `wanted` that `observed` lacks, if any.
pub fn first_missing_column(observed: &Vec<String>, wanted: &Vec<String>) -> (r: Option<usize>)
    ensures
        r.is_none() <==> forall|k: int|
            0 <= k < wanted@.len() ==> has_column(observed@, #[trigger] wanted@[k]@),
        r.is_some() ==> ({
            let k = r.unwrap() as int;
            &&& 0 <= k < wanted@.len()
            &&& !has_column(observed@, wanted@[k]@)
            &&& forall|j: int| 0 <= j < k ==> has_column(observed@, #[trigger] wanted@[j]@)
        }),
{
    let mut k: usize = 0;
    while k < wanted.len()
        invariant
            0 <= k <= wanted@.len(),
            forall|j: int| 0 <= j < k ==> has_column(observed@, #[trigger] wanted@[j]@),
        decreases wanted@.len() - k,
    {
        let mut seen = false;
        let mut n: usize = 0;
        while n < observed.len()
            invariant
                0 <= k < wanted@.len(),
                0 <= n <= observed@.len(),
                seen ==> has_column(observed@, wanted@[k as int]@),
                !seen ==> forall|m: int| 0 <= m < n ==> (#[trigger] observed@[m])@ != wanted@[k as int]@,
            decreases observed@.len() - n,
        {
            if observed[n] == wanted[k] {
                seen = true;
            }
            n = n + 1;
        }
        if !seen {
            proof {
                assert(!has_column(observed@, wanted@[k as int]@));
            }
            return Some(k);
        }
        k = k + 1;
    }
    None
}

/// Whether the computed model replaces the stored one or is added to it.
#[derive(Clone, Copy, Debug, PartialEq, Eq, Structural)]
pub enum PeelPolicy {
    Overwrite,
    Incremental,
}

/// Which of the two tables an error is about.
#[derive(Clone, Copy, Debug, PartialEq, Eq, Structural)]
pub enum TableRole {
    /// The table that receives the model.
    Main,
    /// The table that holds the calibration.
    Work,
}

/// Why peeling cannot start. Both are found before any row is touched.
#[derive(Debug)]
pub enum PeelError {
    /// The two tables differ in their number of rows.
    RowCountMismatch { main_rows: u64, work_rows: u64 },
    /// A required column is absent from one of the tables.
    MissingColumn { table: TableRole, column: String },
}

/// A checked peeling run: the tables agree in size and have the columns.
#[derive(Clone, Copy, Debug, PartialEq, Eq, Structural)]
pub struct PeelPlan {
    pub n_rows: u64,
    pub policy: PeelPolicy,
}

fn column_list_main() -> (r: Vec<String>)
    ensures
        r@.map_values(|s: String| s@) == main_columns(),
{
    let r = vec!["FLAG".to_owned(), "MODEL_DATA".to_owned()];
    proof {
        reveal_strlit("FLAG");
        reveal_strlit("MODEL_DATA");
        assert(r@.map_values(|s: String| s@) =~= main_columns());
    }
    r
}

fn column_list_work() -> (r: Vec<String>)
    ensures
        r@.map_values(|s: String| s@) == work_columns(),
{
    let r = vec![
        "FLAG".to_owned(),
        "DATA".to_owned(),
        "MODEL_DATA".to_owned(),
        "CORRECTED_DATA".to_owned(),
    ];
    proof {
        reveal_strlit("FLAG");
        reveal_strlit("DATA");
        reveal_strlit("MODEL_DATA");
        reveal_strlit("CORRECTED_DATA");
        assert(r@.map_values(|s: String| s@) =~= work_columns());
    }
    r
}

impl PeelPlan {
    /// Checks the preconditions of a run, in this order: the row counts must
    /// be equal, then the main table must have every column of
    /// `main_columns()` and the work table every column of `work_columns()`.
    /// The first failed check is the error.
    pub fn new(
        main_rows: u64,
        work_rows: u64,
        main_observed: &Vec<String>,
        work_observed: &Vec<String>,
        policy: PeelPolicy,
    ) -> (r: Result<PeelPlan, PeelError>)
        ensures
            match r {
                Ok(p) => {
                    &&& main_rows == work_rows
                    &&& has_all_columns(main_observed@, main_columns())
                    &&& has_all_columns(work_observed@, work_columns())
                    &&& p.n_rows == main_rows
                    &&& p.policy == policy
                },
                Err(PeelError::RowCountMismatch { main_rows: m, work_rows: w }) => {
                    &&& main_rows != work_rows
                    &&& m == main_rows
                    &&& w == work_rows
                },
                Err(PeelError::MissingColumn { table: TableRole::Main, column }) => {
                    &&& main_rows == work_rows
                    &&& is_first_missing(main_observed@, main_columns(), column@)
                },
                Err(PeelError::MissingColumn { table: TableRole::Work, column }) => {
                    &&& main_rows == work_rows
                    &&& has_all_columns(main_observed@, main_columns())
                    &&& is_first_missing(work_observed@, work_columns(), column@)
                },
            },
    {
        if main_rows != work_rows {
            return Err(PeelError::RowCountMismatch { main_rows, work_rows });
        }
        let main_wanted = column_list_main();
        match first_missing_column(main_observed, &main_wanted) {
            Some(k) => {
                let column = main_wanted[k].clone();
                proof {
                    lemma_first_missing(main_observed@, main_wanted@, k as int);
                }
                return Err(PeelError::MissingColumn { table: TableRole::Main, column });
            },
            None => {
                proof {
                    lemma_all_present(main_observed@, main_wanted@);
                }
            },
        }
        let work_wanted = column_list_work();
        match first_missing_column(work_observed, &work_wanted) {
            Some(k) => {
                let column = work_wanted[k].clone();
                proof {
                    lemma_first_missing(work_observed@, work_wanted@, k as int);
                }
                Err(PeelError::MissingColumn { table: TableRole::Work, column })
            },
            None => {
                proof {
                    lemma_all_present(work_observed@, work_wanted@);
                }
                Ok(PeelPlan { n_rows: main_rows, policy })
            },
        }
    }

    /// Whether each row's stored model must be read and added to.
    pub fn reads_stored_model(&self) -> (r: bool)
        ensures
            r == (self.policy == PeelPolicy::Incremental),
    {
        match self.policy {
            PeelPolicy::Incremental => true,
            PeelPolicy::Overwrite => false,
        }
    }
}

proof fn lemma_all_present(observed: Seq<String>, wanted: Seq<String>)
    requires
        forall|k: int| 0 <= k < wanted.len() ==> has_column(observed, #[trigger] wanted[k]@),
    ensures
        has_all_columns(observed, wanted.map_values(|s: String| s@)),
{
    let w = wanted.map_values(|s: String| s@);
    assert forall|k: int| 0 <= k < w.len() implies has_column(observed, #[trigger] w[k]) by {
        assert(w[k] == wanted[k]@);
    }
}

proof fn lemma_first_missing(observed: Seq<String>, wanted: Seq<String>, k: int)
    requires
        0 <= k < wanted.len(),
        !has_column(observed, wanted[k]@),
        forall|j: int| 0 <= j < k ==> has_column(observed, #[trigger] wanted[j]@),
    ensures
        is_first_missing(observed, wanted.map_values(|s: String| s@), wanted[k]@),
{
    let w = wanted.map_values(|s: String| s@);
    assert(w[k] == wanted[k]@);
    assert forall|j: int| 0 <= j < k implies has_column(observed, #[trigger] w.subrange(0, k)[j]) by {
        assert(w.subrange(0, k)[j] == wanted[j]@);
    }
}

} // verus!
