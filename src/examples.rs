use vstd::prelude::*;

use crate::rational::Rational;
use crate::solver::{outcome_view, simplex_method, solve_spec, RetState};
use crate::tableau::rows_view;

verus! {

/// Pivot budget of the demonstration problems.
pub const DEFAULT_MAX_PIVOTS: usize = 1000;

/// Integers as fractions over one.
pub open spec fn ints(s: Seq<i64>) -> Seq<Rational> {
    s.map_values(|n: i64| Rational { num: n, den: 1 })
}

pub open spec fn int_rows(s: Seq<Seq<i64>>) -> Seq<Seq<Rational>> {
    s.map_values(|r: Seq<i64>| ints(r))
}

fn from_ints(v: Vec<i64>) -> (r: Vec<Rational>)
    ensures
        r@ == ints(v@),
{
    let mut r: Vec<Rational> = Vec::new();
    let mut i: usize = 0;
    while i < v.len()
        invariant
            i <= v.len(),
            r@ =~= ints(v@.subrange(0, i as int)),
        decreases v.len() - i,
    {
        r.push(Rational { num: v[i], den: 1 });
        i = i + 1;
        assert(ints(v@.subrange(0, i as int)) =~= ints(v@.subrange(0, i - 1)).push(Rational { num: v@[i - 1], den: 1 }));
    }
    assert(v@.subrange(0, v.len() as int) =~= v@);
    r
}

fn from_int_rows(m: Vec<Vec<i64>>) -> (r: Vec<Vec<Rational>>)
    ensures
        rows_view(r@) == int_rows(m@.map_values(|v: Vec<i64>| v@)),
{
    let ghost mv = m@.map_values(|v: Vec<i64>| v@);
    let mut r: Vec<Vec<Rational>> = Vec::new();
    let mut i: usize = 0;
    while i < m.len()
        invariant
            mv == m@.map_values(|v: Vec<i64>| v@),
            i <= m.len(),
            r.len() == i,
            forall|k: int| 0 <= k < i ==> (#[trigger] r@[k])@ == ints(mv[k]),
        decreases m.len() - i,
    {
        let row = from_ints(m[i].clone());
        r.push(row);
        i = i + 1;
    }
    assert(rows_view(r@) =~= int_rows(mv));
    r
}

/// Solves a problem given by integer coefficients.
fn solve_ints(c: Vec<i64>, a: Vec<Vec<i64>>, b: Vec<i64>, e: Option<Rational>) -> (r: (RetState, Option<Vec<Rational>>, Option<Rational>))
    ensures
        outcome_view(r) == solve_spec(ints(c@), int_rows(a@.map_values(|v: Vec<i64>| v@)), ints(b@), e, DEFAULT_MAX_PIVOTS as nat),
{
    let cr = from_ints(c);
    let ar = from_int_rows(a);
    let br = from_ints(b);
    simplex_method(cr, ar, br, e, DEFAULT_MAX_PIVOTS)
}

/// Solves the six demonstration problems with the default tolerance (the
/// fifth with one hundredth) and returns their outcomes in order.
pub fn run_all_tests() -> (r: Vec<(RetState, Option<Vec<Rational>>, Option<Rational>)>)
    ensures
        r@.len() == 6,
        outcome_view(r@[0]) == solve_spec(
            ints(seq![3, 4]),
            int_rows(seq![seq![1, 2], seq![2, 1]]),
            ints(seq![10, 12]),
            None,
            DEFAULT_MAX_PIVOTS as nat,
        ),
        outcome_view(r@[1]) == solve_spec(
            ints(seq![3, 2, 1]),
            int_rows(seq![seq![1, 2, 1], seq![4, 0, 1], seq![2, 3, 0]]),
            ints(seq![12, 16, 10]),
            None,
            DEFAULT_MAX_PIVOTS as nat,
        ),
        outcome_view(r@[2]) == solve_spec(
            ints(seq![3, 4, 2]),
            int_rows(seq![seq![1, 1, 0], seq![2, 1, 1], seq![1, 0, 1], seq![0, 1, 2]]),
            ints(seq![50, 80, 40, 30]),
            None,
            DEFAULT_MAX_PIVOTS as nat,
        ),
        outcome_view(r@[3]) == solve_spec(
            ints(seq![4, 3, 5]),
            int_rows(seq![seq![1, 2, 1], seq![3, 2, 0], seq![0, 1, 3], seq![2, 0, 1]]),
            ints(seq![100, 120, 60, 80]),
            None,
            DEFAULT_MAX_PIVOTS as nat,
        ),
        outcome_view(r@[4]) == solve_spec(
            ints(seq![12, 15, 10]),
            int_rows(seq![seq![2, 3, 1], seq![4, 1, 2], seq![3, 2, 5]]),
            ints(seq![30, 40, 60]),
            Some(Rational { num: 1, den: 100 }),
            DEFAULT_MAX_PIVOTS as nat,
        ),
        outcome_view(r@[5]) == solve_spec(
            ints(seq![3, 2]),
            int_rows(seq![seq![1, 1]]),
            ints(seq![4]),
            None,
            DEFAULT_MAX_PIVOTS as nat,
        ),
{
    let mut r: Vec<(RetState, Option<Vec<Rational>>, Option<Rational>)> = Vec::new();
    let a = vec![vec![1, 2], vec![2, 1]];
    assert(a@.map_values(|v: Vec<i64>| v@) =~= seq![seq![1i64, 2], seq![2i64, 1]]);
    r.push(solve_ints(vec![3, 4], a, vec![10, 12], None));
    let a = vec![vec![1, 2, 1], vec![4, 0, 1], vec![2, 3, 0]];
    assert(a@.map_values(|v: Vec<i64>| v@) =~= seq![seq![1i64, 2, 1], seq![4i64, 0, 1], seq![2i64, 3, 0]]);
    r.push(solve_ints(vec![3, 2, 1], a, vec![12, 16, 10], None));
    let a = vec![vec![1, 1, 0], vec![2, 1, 1], vec![1, 0, 1], vec![0, 1, 2]];
    assert(a@.map_values(|v: Vec<i64>| v@) =~= seq![seq![1i64, 1, 0], seq![2i64, 1, 1], seq![1i64, 0, 1], seq![0i64, 1, 2]]);
    r.push(solve_ints(vec![3, 4, 2], a, vec![50, 80, 40, 30], None));
    let a = vec![vec![1, 2, 1], vec![3, 2, 0], vec![0, 1, 3], vec![2, 0, 1]];
    assert(a@.map_values(|v: Vec<i64>| v@) =~= seq![seq![1i64, 2, 1], seq![3i64, 2, 0], seq![0i64, 1, 3], seq![2i64, 0, 1]]);
    r.push(solve_ints(vec![4, 3, 5], a, vec![100, 120, 60, 80], None));
    let a = vec![vec![2, 3, 1], vec![4, 1, 2], vec![3, 2, 5]];
    assert(a@.map_values(|v: Vec<i64>| v@) =~= seq![seq![2i64, 3, 1], seq![4i64, 1, 2], seq![3i64, 2, 5]]);
    r.push(solve_ints(vec![12, 15, 10], a, vec![30, 40, 60], Some(Rational { num: 1, den: 100 })));
    let a = vec![vec![1, 1]];
    assert(a@.map_values(|v: Vec<i64>| v@) =~= seq![seq![1i64, 1]]);
    let c = vec![3, 2];
    let b = vec![4];
    assert(c@ =~= seq![3i64, 2]);
    assert(b@ =~= seq![4i64]);
    r.push(solve_ints(c, a, b, None));
    r
}

} // verus!
