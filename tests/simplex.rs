use simplex::tableau::{State, Table};
use simplex::{run_all_tests, simplex_method, Rational, RetState};

fn r(n: i64) -> Rational {
    Rational::from_int(n)
}

fn q(num: i64, den: i64) -> Rational {
    Rational { num, den }
}

fn vr(v: &[i64]) -> Vec<Rational> {
    v.iter().map(|&n| r(n)).collect()
}

fn mr(rows: &[&[i64]]) -> Vec<Vec<Rational>> {
    rows.iter().map(|row| vr(row)).collect()
}

const LIMIT: usize = 1000;

#[test]
fn known_optimum() {
    let (st, x, z) = simplex_method(vr(&[3, 4]), mr(&[&[1, 2], &[2, 1]]), vr(&[10, 12]), None, LIMIT);
    assert_eq!(st, RetState::Solved);
    assert_eq!(x, Some(vec![q(14, 3), q(8, 3)]));
    assert_eq!(z, Some(q(74, 3)));
}

#[test]
fn three_constraints_three_variables() {
    let (st, x, z) = simplex_method(
        vr(&[3, 2, 1]),
        mr(&[&[1, 2, 1], &[4, 0, 1], &[2, 3, 0]]),
        vr(&[12, 16, 10]),
        None,
        LIMIT,
    );
    assert_eq!(st, RetState::Solved);
    assert_eq!(x, Some(vec![q(32, 13), q(22, 13), q(80, 13)]));
    assert_eq!(z, Some(q(220, 13)));
}

#[test]
fn four_constraints_degenerate_vertex() {
    let (st, x, z) = simplex_method(
        vr(&[3, 4, 2]),
        mr(&[&[1, 1, 0], &[2, 1, 1], &[1, 0, 1], &[0, 1, 2]]),
        vr(&[50, 80, 40, 30]),
        None,
        LIMIT,
    );
    assert_eq!(st, RetState::Solved);
    assert_eq!(x, Some(vec![r(20), r(30), r(0)]));
    assert_eq!(z, Some(r(180)));
}

#[test]
fn four_constraints_integer_optimum() {
    let (st, x, z) = simplex_method(
        vr(&[4, 3, 5]),
        mr(&[&[1, 2, 1], &[3, 2, 0], &[0, 1, 3], &[2, 0, 1]]),
        vr(&[100, 120, 60, 80]),
        None,
        LIMIT,
    );
    assert_eq!(st, RetState::Solved);
    assert_eq!(x, Some(vec![r(32), r(12), r(16)]));
    assert_eq!(z, Some(r(244)));
}

#[test]
fn small_tolerance_problem() {
    let (st, x, z) = simplex_method(
        vr(&[12, 15, 10]),
        mr(&[&[2, 3, 1], &[4, 1, 2], &[3, 2, 5]]),
        vr(&[30, 40, 60]),
        Some(q(1, 100)),
        LIMIT,
    );
    assert_eq!(st, RetState::Solved);
    assert_eq!(x, Some(vec![q(38, 7), r(4), q(50, 7)]));
    assert_eq!(z, Some(q(1376, 7)));
}

#[test]
fn unbounded_single_constraint() {
    let (st, x, z) = simplex_method(vr(&[3, 2]), mr(&[&[1, 1]]), vr(&[4]), None, LIMIT);
    assert_eq!(st, RetState::Unbounded);
    assert_eq!(x, None);
    assert_eq!(z, None);
}

#[test]
fn unbounded_without_leaving_row() {
    let (st, x, z) = simplex_method(vr(&[1, 1]), mr(&[&[-1, 1]]), vr(&[2]), None, LIMIT);
    assert_eq!(st, RetState::Unbounded);
    assert_eq!(x, None);
    assert_eq!(z, None);
}

#[test]
fn zero_objective() {
    let (st, x, z) = simplex_method(vr(&[0, 0]), mr(&[&[1, 2], &[2, 1]]), vr(&[10, 12]), None, LIMIT);
    assert_eq!(st, RetState::Solved);
    assert_eq!(x, Some(vec![r(0), r(0)]));
    assert_eq!(z, Some(r(0)));
}

#[test]
fn tolerance_sensitivity() {
    let tolerances = [r(5), r(2), r(1), q(1, 10), q(1, 100), r(0)];
    let problems: Vec<(Vec<Rational>, Vec<Vec<Rational>>, Vec<Rational>)> = vec![
        (vr(&[3, 4]), mr(&[&[1, 2], &[2, 1]]), vr(&[10, 12])),
        (vr(&[12, 15, 10]), mr(&[&[2, 3, 1], &[4, 1, 2], &[3, 2, 5]]), vr(&[30, 40, 60])),
    ];
    for (c, a, b) in problems {
        let mut last: Option<f64> = None;
        for eps in tolerances.iter() {
            let (st, _, z) = simplex_method(c.clone(), a.clone(), b.clone(), Some(*eps), LIMIT);
            assert_eq!(st, RetState::Solved);
            let z = z.unwrap();
            let value = z.num as f64 / z.den as f64;
            if let Some(prev) = last {
                assert!(value >= prev);
            }
            last = Some(value);
        }
    }
    let (_, _, coarse) = simplex_method(vr(&[3, 4]), mr(&[&[1, 2], &[2, 1]]), vr(&[10, 12]), Some(r(2)), LIMIT);
    assert_eq!(coarse, Some(r(20)));
}

#[test]
fn iteration_limit() {
    let (st, x, z) = simplex_method(vr(&[3, 4]), mr(&[&[1, 2], &[2, 1]]), vr(&[10, 12]), None, 1);
    assert_eq!(st, RetState::IterationLimit);
    assert_eq!(x, None);
    assert_eq!(z, None);
    let (st, _, z) = simplex_method(vr(&[3, 4]), mr(&[&[1, 2], &[2, 1]]), vr(&[10, 12]), None, 2);
    assert_eq!(st, RetState::Solved);
    assert_eq!(z, Some(q(74, 3)));
}

#[test]
fn overflow_is_reported() {
    let big: i64 = 4_000_000_000;
    let (st, x, z) = simplex_method(vec![r(1)], vec![vec![q(1, big)]], vec![r(big)], None, LIMIT);
    assert_eq!(st, RetState::Overflow);
    assert_eq!(x, None);
    assert_eq!(z, None);
}

#[test]
fn malformed_inputs() {
    let bad_width = simplex_method(vr(&[1, 1]), mr(&[&[1]]), vr(&[1]), None, LIMIT);
    assert_eq!(bad_width, (RetState::Malformed, None, None));
    let bad_height = simplex_method(vr(&[1]), mr(&[&[1]]), vr(&[1, 2]), None, LIMIT);
    assert_eq!(bad_height, (RetState::Malformed, None, None));
    let negative_tolerance = simplex_method(vr(&[1]), mr(&[&[1]]), vr(&[1]), Some(r(-1)), LIMIT);
    assert_eq!(negative_tolerance, (RetState::Malformed, None, None));
    let zero_den = simplex_method(vec![q(1, 0)], mr(&[&[1]]), vr(&[1]), None, LIMIT);
    assert_eq!(zero_den, (RetState::Malformed, None, None));
    let min_num = simplex_method(vr(&[1]), mr(&[&[1]]), vec![q(i64::MIN, 1)], None, LIMIT);
    assert_eq!(min_num, (RetState::Malformed, None, None));
}

#[test]
fn selection_and_pivot() {
    let mut t = Table::init(&vr(&[3, 4]), &mr(&[&[1, 2], &[2, 1]]), &vr(&[10, 12]), q(1, 10));
    assert_eq!(t.data[0], vec![r(-3), r(-4), r(0), r(0), r(0)]);
    assert_eq!(t.rows, vec![2, 3]);
    assert_eq!(t.var_change(), State::InProgress { enter: 1, leave: 1 });
    assert!(t.change_row(1, 1));
    assert_eq!(t.rows, vec![1, 3]);
    assert_eq!(t.data[1], vec![q(1, 2), r(1), q(1, 2), r(0), r(5)]);
    assert_eq!(t.data[2], vec![q(3, 2), r(0), q(-1, 2), r(1), r(7)]);
    assert_eq!(t.data[0], vec![r(-1), r(0), r(2), r(0), r(20)]);
    assert_eq!(t.var_change(), State::InProgress { enter: 0, leave: 2 });
}

#[test]
fn extraction_twice_is_identical() {
    let mut t = Table::init(&vr(&[3, 4]), &mr(&[&[1, 2], &[2, 1]]), &vr(&[10, 12]), q(1, 10));
    loop {
        match t.var_change() {
            State::InProgress { enter, leave } => assert!(t.change_row(enter, leave)),
            State::Finished => break,
            other => panic!("unexpected {:?}", other),
        }
    }
    let first = (t.result_vec(), t.result());
    let second = (t.result_vec(), t.result());
    assert_eq!(first, second);
    assert_eq!(first.1, q(74, 3));
}

#[test]
fn rational_arithmetic() {
    assert_eq!(q(1, 2).checked_add(&q(1, 3)), Some(q(5, 6)));
    assert_eq!(q(1, 2).checked_sub(&q(1, 3)), Some(q(1, 6)));
    assert_eq!(q(2, 3).checked_mul(&q(3, 4)), Some(q(1, 2)));
    assert_eq!(q(1, 2).checked_div(&q(-1, 4)), Some(r(-2)));
    assert_eq!(q(1, 2).checked_div(&r(0)), None);
    assert_eq!(q(2, 4).checked_add(&r(0)), Some(q(1, 2)));
    assert_eq!(q(1, 3).checked_sub(&q(1, 3)), Some(r(0)));
    assert_eq!(r(i64::MAX).checked_add(&r(1)), None);
    assert_eq!(r(5).neg(), r(-5));
    assert!(q(1, 3).is_less(&q(1, 2)));
    assert!(!q(1, 2).is_less(&q(2, 4)));
    assert!(q(-1, 2).is_less(&r(0)));
}

#[test]
fn demonstration_problems() {
    let out = run_all_tests();
    assert_eq!(out.len(), 6);
    assert_eq!(out[0], (RetState::Solved, Some(vec![q(14, 3), q(8, 3)]), Some(q(74, 3))));
    assert_eq!(out[1], (RetState::Solved, Some(vec![q(32, 13), q(22, 13), q(80, 13)]), Some(q(220, 13))));
    assert_eq!(out[2], (RetState::Solved, Some(vec![r(20), r(30), r(0)]), Some(r(180))));
    assert_eq!(out[3], (RetState::Solved, Some(vec![r(32), r(12), r(16)]), Some(r(244))));
    assert_eq!(out[4], (RetState::Solved, Some(vec![q(38, 7), r(4), q(50, 7)]), Some(q(1376, 7))));
    assert_eq!(out[5], (RetState::Unbounded, None, None));
}
