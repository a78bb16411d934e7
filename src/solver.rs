use vstd::prelude::*;

use crate::invariants::{lemma_init_invariants, lemma_run_keeps_invariants, lemma_solved_is_optimal};
use crate::rational::Rational;
use crate::tableau::{
    init_model, lemma_pivot_wf, lemma_select_in_bounds, rows_view, valid_input, State, Table,
    TableModel,
};

verus! {

/// How a solve ended.
#[derive(Clone, Copy, Debug, PartialEq, Eq)]
pub enum RetState {
    /// An optimal vertex was reached.
    Solved,
    /// The problem was judged unbounded.
    Unbounded,
    /// The pivot budget ran out before a decision.
    IterationLimit,
    /// An exact intermediate value did not fit in the number type.
    Overflow,
    /// The dimensions or the numbers of the input are not usable.
    Malformed,
}

/// The tolerance used when none is given: one tenth.
pub open spec fn default_tolerance() -> Rational {
    Rational { num: 1, den: 10 }
}

pub open spec fn tolerance_of(e: Option<Rational>) -> Rational {
    match e {
        Some(v) => v,
        None => default_tolerance(),
    }
}

/// Runs selection and pivoting from `t`, with at most `fuel` pivots, and
/// gives the outcome with the last tableau.
pub open spec fn run(t: TableModel, fuel: nat) -> (RetState, TableModel)
    decreases fuel,
{
    match t.select() {
        State::Unbound => (RetState::Unbounded, t),
        State::Finished => (RetState::Solved, t),
        State::Overflow => (RetState::Overflow, t),
        State::InProgress { enter, leave } => if fuel == 0 {
            (RetState::IterationLimit, t)
        } else {
            match t.pivot(enter as int, leave as int) {
                None => (RetState::Overflow, t),
                Some(u) => run(u, (fuel - 1) as nat),
            }
        },
    }
}

/// What a solve returns, with the assignment as a sequence.
#[verifier::opaque]
pub open spec fn solve_spec(c: Seq<Rational>, a: Seq<Seq<Rational>>, b: Seq<Rational>, e: Option<Rational>, max_pivots: nat) -> (
    RetState,
    Option<Seq<Rational>>,
    Option<Rational>,
) {
    if !valid_input(c, a, b, tolerance_of(e)) {
        (RetState::Malformed, None, None)
    } else {
        let res = run(init_model(c, a, b, tolerance_of(e)), max_pivots);
        if res.0 == RetState::Solved {
            (res.0, Some(res.1.assignment()), Some(res.1.objective()))
        } else {
            (res.0, None, None)
        }
    }
}

pub open spec fn outcome_view(r: (RetState, Option<Vec<Rational>>, Option<Rational>)) -> (
    RetState,
    Option<Seq<Rational>>,
    Option<Rational>,
) {
    (
        r.0,
        match r.1 {
            Some(v) => Some(v@),
            None => None,
        },
        r.2,
    )
}

/// Whether the input can be solved: consistent dimensions, well-formed
/// numbers and a nonnegative tolerance.
fn check_input(c: &Vec<Rational>, a: &Vec<Vec<Rational>>, b: &Vec<Rational>, eps: Rational) -> (r: bool)
    ensures
        r == valid_input(c@, rows_view(a@), b@, eps),
{
    let ghost av = rows_view(a@);
    if a.len() != b.len() || eps.den <= 0 || eps.num < 0 {
        return false;
    }
    if b.len() == usize::MAX || c.len() >= usize::MAX - b.len() {
        return false;
    }
    let mut j: usize = 0;
    while j < c.len()
        invariant
            j <= c.len(),
            forall|q: int| 0 <= q < j ==> (#[trigger] c@[q]).wf(),
        decreases c.len() - j,
    {
        if c[j].den <= 0 || c[j].num == i64::MIN {
            return false;
        }
        j = j + 1;
    }
    let mut i: usize = 0;
    while i < b.len()
        invariant
            i <= b.len(),
            forall|q: int| 0 <= q < i ==> (#[trigger] b@[q]).wf(),
        decreases b.len() - i,
    {
        if b[i].den <= 0 || b[i].num == i64::MIN {
            return false;
        }
        i = i + 1;
    }
    let mut i: usize = 0;
    while i < a.len()
        invariant
            av == rows_view(a@),
            i <= a.len(),
            forall|q: int| 0 <= q < i ==> (#[trigger] av[q]).len() == c.len(),
            forall|q: int, p: int| 0 <= q < i && 0 <= p < c.len() ==> (#[trigger] av[q][p]).wf(),
        decreases a.len() - i,
    {
        if a[i].len() != c.len() {
            assert(av[i as int] == a@[i as int]@);
            return false;
        }
        let mut j: usize = 0;
        while j < c.len()
            invariant
                av == rows_view(a@),
                i < a.len(),
                a@[i as int].len() == c.len(),
                j <= c.len(),
                forall|q: int| 0 <= q < i ==> (#[trigger] av[q]).len() == c.len(),
                forall|q: int, p: int| 0 <= q < i && 0 <= p < c.len() ==> (#[trigger] av[q][p]).wf(),
                forall|p: int| 0 <= p < j ==> (#[trigger] av[i as int][p]).wf(),
            decreases c.len() - j,
        {
            if a[i][j].den <= 0 || a[i][j].num == i64::MIN {
                assert(av[i as int][j as int] == a@[i as int]@[j as int]);
                return false;
            }
            j = j + 1;
        }
        i = i + 1;
    }
    true
}

/// Solves `max c.x subject to a.x <= b, x >= 0` by the simplex method with
/// tolerance `e` (one tenth when absent), pivoting at most `max_pivots`
/// times. On `Solved` it returns the value of every decision variable and
/// the optimum.
pub fn simplex_method(c: Vec<Rational>, a: Vec<Vec<Rational>>, b: Vec<Rational>, e: Option<Rational>, max_pivots: usize) -> (r: (
    RetState,
    Option<Vec<Rational>>,
    Option<Rational>,
))
    ensures
        !valid_input(c@, rows_view(a@), b@, tolerance_of(e)) ==> r == (RetState::Malformed, None::<Vec<Rational>>, None::<Rational>),
        valid_input(c@, rows_view(a@), b@, tolerance_of(e)) ==> {
            let (st, t) = run(init_model(c@, rows_view(a@), b@, tolerance_of(e)), max_pivots as nat);
            &&& r.0 == st
            &&& st == RetState::Solved ==> (r.1 matches Some(v) && v@ == t.assignment())
            &&& st == RetState::Solved ==> r.2 == Some(t.objective())
            &&& st != RetState::Solved ==> r.1 is None && r.2 is None
        },
        outcome_view(r) == solve_spec(c@, rows_view(a@), b@, e, max_pivots as nat),
        r.0 == RetState::Solved ==> {
            let t = run(init_model(c@, rows_view(a@), b@, tolerance_of(e)), max_pivots as nat).1;
            &&& t.basis_ok()
            &&& forall|j: int| 0 <= j < c.len() ==> !(#[trigger] t.at(0, j)).lt(tolerance_of(e).spec_neg())
            &&& (forall|i: int| 0 <= i < b.len() ==> (#[trigger] b@[i]).num >= 0) ==> t.feasible()
        },
{
    proof {
        reveal(solve_spec);
    }
    let eps = match e {
        Some(v) => v,
        None => Rational { num: 1, den: 10 },
    };
    if !check_input(&c, &a, &b, eps) {
        return (RetState::Malformed, None, None);
    }
    let mut table = Table::init(&c, &a, &b, eps);
    let ghost start = table@;
    let mut fuel = max_pivots;
    loop
        invariant
            valid_input(c@, rows_view(a@), b@, tolerance_of(e)),
            start == init_model(c@, rows_view(a@), b@, tolerance_of(e)),
            table@.wf(),
            run(table@, fuel as nat) == run(start, max_pivots as nat),
        ensures
            table@.wf(),
            table@.select() == State::Finished,
            run(table@, fuel as nat) == run(start, max_pivots as nat),
        decreases fuel,
    {
        let step = table.var_change();
        proof {
            reveal(solve_spec);
            lemma_select_in_bounds(table@);
        }
        match step {
            State::Unbound => {
                return (RetState::Unbounded, None, None);
            },
            State::Overflow => {
                return (RetState::Overflow, None, None);
            },
            State::Finished => {
                break;
            },
            State::InProgress { enter, leave } => {
                if fuel == 0 {
                    return (RetState::IterationLimit, None, None);
                }
                let ghost before = table@;
                let ok = table.change_row(enter, leave);
                if !ok {
                    return (RetState::Overflow, None, None);
                }
                proof {
                    lemma_pivot_wf(before, enter as int, leave as int);
                }
                fuel = fuel - 1;
            },
        }
    }
    proof {
        lemma_init_invariants(c@, rows_view(a@), b@, eps);
        lemma_run_keeps_invariants(start, max_pivots as nat);
        lemma_solved_is_optimal(start, max_pivots as nat);
    }
    (RetState::Solved, Some(table.result_vec()), Some(table.result()))
}

} // verus!
