use rxpackage::error::MiscellaneousError;
use rxpackage::peel::{
    first_missing_column, guard_divisors, guard_quotients, ComplexBits, PeelError, PeelPlan,
    PeelPolicy, ShapeError, TableRole,
};

fn c(re: f32, im: f32) -> ComplexBits {
    ComplexBits { re: re.to_bits(), im: im.to_bits() }
}

fn re(x: ComplexBits) -> f32 {
    f32::from_bits(x.re)
}

fn im(x: ComplexBits) -> f32 {
    f32::from_bits(x.im)
}

fn mul(a: ComplexBits, b: ComplexBits) -> ComplexBits {
    c(re(a) * re(b) - im(a) * im(b), re(a) * im(b) + im(a) * re(b))
}

fn div(a: ComplexBits, b: ComplexBits) -> ComplexBits {
    let d = re(b) * re(b) + im(b) * im(b);
    c(
        (re(a) * re(b) + im(a) * im(b)) / d,
        (im(a) * re(b) - re(a) * im(b)) / d,
    )
}

/// One row of peeling under the overwrite policy.
fn peel_row(
    main_flag: &Vec<bool>,
    work_flag: &Vec<bool>,
    data: &Vec<ComplexBits>,
    model: &Vec<ComplexBits>,
    corrected: &Vec<ComplexBits>,
) -> (Vec<bool>, Vec<ComplexBits>) {
    let guarded = guard_divisors(main_flag, work_flag, corrected).unwrap();
    let derived: Vec<ComplexBits> = (0..data.len())
        .map(|i| div(mul(data[i], model[i]), guarded.divisors[i]))
        .collect();
    let out = guard_quotients(&guarded.flags, &derived);
    (out.flags, out.values)
}

fn names(list: &[&str]) -> Vec<String> {
    list.iter().map(|s| s.to_string()).collect()
}

#[test]
fn simple_row_is_corrected() {
    let (flags, values) = peel_row(
        &vec![false],
        &vec![false],
        &vec![c(2.0, 0.0)],
        &vec![c(3.0, 0.0)],
        &vec![c(1.0, 0.0)],
    );
    assert_eq!(flags, vec![false]);
    assert_eq!(values, vec![c(6.0, 0.0)]);
}

#[test]
fn zero_divisor_is_flagged_and_zeroed() {
    let (flags, values) = peel_row(
        &vec![false],
        &vec![false],
        &vec![c(2.0, 0.0)],
        &vec![c(3.0, 0.0)],
        &vec![c(0.0, 0.0)],
    );
    assert_eq!(flags, vec![true]);
    assert_eq!(values, vec![c(0.0, 0.0)]);
}

#[test]
fn divisor_guard_replaces_zero_and_flagged() {
    let g = guard_divisors(
        &vec![true, false, false, false],
        &vec![false, true, false, false],
        &vec![c(2.0, 1.0), c(4.0, 0.0), c(-0.0, 0.0), c(5.0, -1.0)],
    )
    .unwrap();
    assert_eq!(g.flags, vec![true, true, true, false]);
    assert_eq!(g.divisors, vec![c(1.0, 0.0), c(1.0, 0.0), c(1.0, 0.0), c(5.0, -1.0)]);
    assert!(c(-0.0, 0.0).is_zero());
    assert!(!c(1.0e-45, 0.0).is_zero());
}

#[test]
fn quotient_guard_flags_non_finite() {
    let out = guard_quotients(
        &vec![false, false, false, true],
        &vec![c(f32::INFINITY, 0.0), c(1.0, f32::NAN), c(2.5, -1.0), c(7.0, 7.0)],
    );
    assert_eq!(out.flags, vec![true, true, false, true]);
    assert_eq!(out.values, vec![c(0.0, 0.0), c(0.0, 0.0), c(2.5, -1.0), c(0.0, 0.0)]);
    assert!(!c(f32::NEG_INFINITY, 0.0).is_finite());
    assert!(c(f32::MAX, -f32::MAX).is_finite());
}

#[test]
fn flags_only_grow() {
    let main_flag = vec![true, false, false, false];
    let work_flag = vec![false, true, false, false];
    let (flags, _) = peel_row(
        &main_flag,
        &work_flag,
        &vec![c(1.0, 0.0), c(1.0, 0.0), c(f32::MAX, 0.0), c(1.0, 1.0)],
        &vec![c(1.0, 0.0), c(1.0, 0.0), c(f32::MAX, 0.0), c(2.0, 0.0)],
        &vec![c(1.0, 0.0), c(1.0, 0.0), c(1.0, 0.0), c(1.0, 0.0)],
    );
    for i in 0..4 {
        assert!(flags[i] || !(main_flag[i] || work_flag[i]));
    }
    assert_eq!(flags, vec![true, true, true, false]);
}

#[test]
fn incremental_doubles_the_model() {
    let main_flag = vec![false, true];
    let work_flag = vec![false, false];
    let data = vec![c(2.0, 1.0), c(1.0, 0.0)];
    let model = vec![c(3.0, 0.0), c(1.0, 0.0)];
    let corrected = vec![c(1.0, 1.0), c(1.0, 0.0)];
    let (flags1, first) = peel_row(&main_flag, &work_flag, &data, &model, &corrected);
    let (flags2, again) = peel_row(&main_flag, &work_flag, &data, &model, &corrected);
    assert_eq!(flags1, flags2);
    for i in 0..2 {
        let sum = c(re(first[i]) + re(again[i]), im(first[i]) + im(again[i]));
        assert_eq!(sum, c(2.0 * re(first[i]), 2.0 * im(first[i])));
    }
    assert_eq!(first[0], c(4.5, -1.5));
}

#[test]
fn shape_mismatch_is_rejected() {
    let r = guard_divisors(&vec![false, false], &vec![false], &vec![c(1.0, 0.0), c(1.0, 0.0)]);
    assert!(matches!(r, Err(ShapeError::ShapeMismatch)));
    let r = guard_divisors(&vec![false], &vec![false], &vec![]);
    assert!(matches!(r, Err(ShapeError::ShapeMismatch)));
}

#[test]
fn row_count_mismatch_is_reported() {
    let main = names(&["FLAG", "MODEL_DATA"]);
    let work = names(&["FLAG", "DATA", "MODEL_DATA", "CORRECTED_DATA"]);
    let r = PeelPlan::new(10, 12, &main, &work, PeelPolicy::Overwrite);
    assert!(matches!(
        r,
        Err(PeelError::RowCountMismatch { main_rows: 10, work_rows: 12 })
    ));
}

#[test]
fn missing_columns_are_named() {
    let work = names(&["FLAG", "DATA", "MODEL_DATA", "CORRECTED_DATA"]);
    let r = PeelPlan::new(3, 3, &names(&["FLAG", "DATA"]), &work, PeelPolicy::Overwrite);
    match r {
        Err(PeelError::MissingColumn { table, column }) => {
            assert_eq!(table, TableRole::Main);
            assert_eq!(column, "MODEL_DATA");
        }
        _ => panic!("expected a missing column"),
    }
    let main = names(&["MODEL_DATA", "FLAG"]);
    let r = PeelPlan::new(3, 3, &main, &names(&["FLAG", "MODEL_DATA", "DATA"]), PeelPolicy::Overwrite);
    match r {
        Err(PeelError::MissingColumn { table, column }) => {
            assert_eq!(table, TableRole::Work);
            assert_eq!(column, "CORRECTED_DATA");
        }
        _ => panic!("expected a missing column"),
    }
}

#[test]
fn plan_accepts_matching_tables() {
    let main = names(&["TIME", "FLAG", "MODEL_DATA", "DATA"]);
    let work = names(&["CORRECTED_DATA", "MODEL_DATA", "DATA", "FLAG"]);
    let plan = PeelPlan::new(0, 0, &main, &work, PeelPolicy::Incremental).unwrap();
    assert_eq!(plan.n_rows, 0);
    assert!(plan.reads_stored_model());
    let plan = PeelPlan::new(5, 5, &main, &work, PeelPolicy::Overwrite).unwrap();
    assert_eq!(plan.n_rows, 5);
    assert!(!plan.reads_stored_model());
}

#[test]
fn first_missing_column_index() {
    let observed = names(&["A", "B"]);
    assert_eq!(first_missing_column(&observed, &names(&["B", "C", "D"])), Some(1));
    assert_eq!(first_missing_column(&observed, &names(&["B", "A"])), None);
    assert_eq!(first_missing_column(&observed, &names(&[])), None);
    assert_eq!(first_missing_column(&names(&[]), &names(&["A"])), Some(0));
}

#[test]
fn miscellaneous_error_keeps_message() {
    let e = MiscellaneousError::new("unrecognized sub-command \"x\"".to_string());
    assert_eq!(e.message(), "unrecognized sub-command \"x\"");
}
