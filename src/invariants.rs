use vstd::prelude::*;

use crate::rational::{reduce, lemma_reduce_same, lemma_reduce_wf, lemma_reduce_value, lemma_reduce_zero, Rational};
use crate::solver::run;
use crate::solver::RetState;
use crate::tableau::{init_model, lemma_enter_scan_bound, lemma_pivot_wf, lemma_ratio_scan_row, lemma_select_in_bounds, one, valid_input, zero, State, TableModel};

verus! {

impl TableModel {
    /// Each constraint row's basic variable has the unit column of that row.
    pub open spec fn basis_ok(self) -> bool {
        forall|i: int, k: int|
            0 <= i < self.s && 0 <= k <= self.s ==> if k == i + 1 {
                (#[trigger] self.at(k, self.rows[i] as int)).is_one()
            } else {
                self.at(k, self.rows[i] as int).is_zero()
            }
    }

    /// Every constraint row has a nonnegative value.
    pub open spec fn feasible(self) -> bool {
        forall|k: int| 1 <= k <= self.s ==> (#[trigger] self.at(k, self.vcol())).num >= 0
    }
}

proof fn lemma_enter_scan_none(t: TableModel, k: nat)
    ensures
        t.enter_scan(k) is None ==> forall|j: int| 0 <= j < k ==> !(#[trigger] t.at(0, j)).lt(t.eps.spec_neg()),
    decreases k,
{
    if k > 0 {
        lemma_enter_scan_none(t, (k - 1) as nat);
    }
}

/// The entering column has a negative reduced cost when the tolerance is
/// nonnegative.
proof fn lemma_enter_scan_negative(t: TableModel, k: nat)
    requires
        t.eps.wf(),
        t.eps.num >= 0,
        k <= usize::MAX,
        forall|j: int| 0 <= j < k ==> (#[trigger] t.at(0, j)).wf(),
    ensures
        t.enter_scan(k) matches Some(j) ==> t.at(0, j as int).num < 0,
    decreases k,
{
    if k > 0 {
        lemma_enter_scan_negative(t, (k - 1) as nat);
        lemma_enter_scan_bound(t, (k - 1) as nat);
        let a = t.at(0, k - 1);
        let b = match t.enter_scan((k - 1) as nat) {
            None => t.eps.spec_neg(),
            Some(j) => t.at(0, j as int),
        };
        if a.lt(b) {
            assert(b.num <= 0 && b.den > 0);
            assert(a.num < 0) by (nonlinear_arith)
                requires
                    a.num * b.den < b.num * a.den,
                    b.num <= 0,
                    b.den > 0,
                    a.den > 0,
            ;
        }
    }
}

/// On `Solved`, no decision column of the final objective row has a reduced
/// cost below `-eps`.
pub proof fn lemma_solved_is_optimal(t: TableModel, fuel: nat)
    ensures
        run(t, fuel).0 == RetState::Solved ==> forall|j: int|
            0 <= j < t.x ==> !(#[trigger] run(t, fuel).1.at(0, j)).lt(t.eps.spec_neg()),
    decreases fuel,
{
    match t.select() {
        State::Finished => {
            lemma_enter_scan_none(t, t.x);
        },
        State::InProgress { enter, leave } => {
            if fuel > 0 {
                if let Some(u) = t.pivot(enter as int, leave as int) {
                    lemma_solved_is_optimal(u, (fuel - 1) as nat);
                }
            }
        },
        _ => {},
    }
}

proof fn lemma_assignment_of_slack_basis(t: TableModel, k: nat)
    requires
        k <= t.s,
        t.rows.len() == t.s,
        forall|i: int| 0 <= i < t.s ==> (#[trigger] t.rows[i]) >= t.x,
    ensures
        t.assignment_upto(k) == Seq::new(t.x, |j: int| zero()),
    decreases k,
{
    if k > 0 {
        lemma_assignment_of_slack_basis(t, (k - 1) as nat);
    }
}

/// With a zero objective, the initial tableau is already optimal: the solve
/// ends `Solved` at once with objective zero and every decision variable zero.
pub proof fn lemma_zero_objective(c: Seq<Rational>, a: Seq<Seq<Rational>>, b: Seq<Rational>, eps: Rational, fuel: nat)
    requires
        valid_input(c, a, b, eps),
        forall|j: int| 0 <= j < c.len() ==> (#[trigger] c[j]).num == 0,
    ensures
        run(init_model(c, a, b, eps), fuel) == (RetState::Solved, init_model(c, a, b, eps)),
        init_model(c, a, b, eps).objective() == zero(),
        init_model(c, a, b, eps).assignment() == Seq::new(c.len(), |j: int| zero()),
{
    let t = init_model(c, a, b, eps);
    assert forall|j: int| 0 <= j < t.x implies (#[trigger] t.at(0, j)).num == 0 && !t.at(0, j).lt(t.eps.spec_neg()) by {
        let v = t.at(0, j);
        assert(v == c[j].spec_neg());
        assert(v.num == 0);
        assert(v.num * eps.den >= (-eps.num) * v.den) by (nonlinear_arith)
            requires
                v.num == 0,
                eps.num >= 0,
                v.den > 0,
        ;
    }
    assert(t.enter_scan(t.x) is None) by {
        lemma_enter_scan_none_converse(t, t.x);
    }
    assert(!t.has_positive_cost());
    assert(t.select() == State::Finished);
    lemma_assignment_of_slack_basis(t, t.s);
}

/// Entry facts used for the unit columns after a pivot.
proof fn lemma_unit_entries(x: Rational, p: Rational)
    requires
        x.wf(),
        p.wf(),
        p.num != 0,
    ensures
        x.is_zero() ==> x.spec_div(p) == Some(zero()),
        x == p ==> x.spec_div(p) == Some(one()),
        x.spec_mul(one()) matches Some(m) ==> x.spec_sub(m) == Some(zero()),
        x.spec_mul(zero()) == Some(zero()),
        x.is_zero() ==> x.spec_sub(zero()) == Some(zero()),
        x.is_one() ==> x.spec_sub(zero()) == Some(one()),
{
    if x.is_zero() {
        assert(x.num * p.den == 0) by (nonlinear_arith)
            requires
                x.num == 0,
        ;
        assert(x.den * p.num > 0 || x.den * p.num < 0) by (nonlinear_arith)
            requires
                x.den > 0,
                p.num != 0,
        ;
        assert(x.den * p.num < 0 ==> -(x.den * p.num) > 0);
        if p.num > 0 {
            assert(x.den * p.num > 0) by (nonlinear_arith)
                requires
                    x.den > 0,
                    p.num > 0,
            ;
            lemma_reduce_zero(x.den * p.num);
        } else {
            assert(x.den * p.num < 0) by (nonlinear_arith)
                requires
                    x.den > 0,
                    p.num < 0,
            ;
            lemma_reduce_zero(-(x.den * p.num));
        }
        lemma_reduce_zero(x.den as int);
    }
    if x == p {
        assert(p.num * p.den == p.den * p.num) by (nonlinear_arith);
        if p.num > 0 {
            assert(p.num * p.den > 0) by (nonlinear_arith)
                requires
                    p.den > 0,
                    p.num > 0,
            ;
            lemma_reduce_same(p.num * p.den);
        } else {
            assert(-(p.num * p.den) > 0) by (nonlinear_arith)
                requires
                    p.den > 0,
                    p.num < 0,
            ;
            lemma_reduce_same(-(p.num * p.den));
        }
    }
    lemma_reduce_value(x.num as int, x.den as int);
    assert(x.num * 1 == x.num && x.den * 1 == x.den);
    if let Some(m) = x.spec_mul(one()) {
        assert(x.num * m.den - m.num * x.den == 0) by (nonlinear_arith)
            requires
                m.num * x.den == x.num * m.den,
        ;
        assert(x.den * m.den > 0) by (nonlinear_arith)
            requires
                x.den > 0,
                m.den > 0,
        ;
        lemma_reduce_zero(x.den * m.den);
    }
    assert(x.num * 0 == 0);
    lemma_reduce_zero(x.den as int);
    if x.is_one() {
        lemma_reduce_same(x.den as int);
        assert(x.spec_sub(zero()) == reduce(x.num * 1 - 0 * x.den, x.den * 1));
        assert(x.num * 1 - 0 * x.den == x.den as int);
    }
}

/// Pivoting on a selected pair keeps every basic column a unit column.
pub proof fn lemma_pivot_keeps_basis(t: TableModel, enter: usize, leave: usize)
    requires
        t.wf(),
        t.basis_ok(),
        t.select() == (State::InProgress { enter, leave }),
        t.pivot(enter as int, leave as int) is Some,
    ensures
        t.pivot(enter as int, leave as int).unwrap().basis_ok(),
{
    let col = enter as int;
    let row = leave as int;
    let u = t.pivot(col, row).unwrap();
    assert(t.pivot_fits(col, row));
    assert(u.rows == t.rows.update(row - 1, enter));
    lemma_select_in_bounds(t);
    lemma_enter_scan_negative(t, t.x);
    let p = t.at(row, col);
    assert forall|i: int, k: int| 0 <= i < u.s && 0 <= k <= u.s implies if k == i + 1 {
        (#[trigger] u.at(k, u.rows[i] as int)).is_one()
    } else {
        u.at(k, u.rows[i] as int).is_zero()
    } by {
        let j = u.rows[i] as int;
        if i == row - 1 {
            assert(u.rows[i] == enter);
        } else {
            assert(u.rows[i] == t.rows[i]);
        }
        assert(0 <= j < t.width());
        assert(t.pivot_entry(col, row, k, j) is Some);
        assert(u.at(k, j) == t.pivot_entry(col, row, k, j).unwrap());
        let x = t.at(k, j);
        lemma_unit_entries(x, p);
        if i == row - 1 {
            assert(j == col);
            lemma_unit_entries(t.at(row, col), p);
        } else {
            assert(u.rows[i] == t.rows[i]);
            assert(t.at(0, j).is_zero());
            assert(j != col);
            assert(t.at(row, j).is_zero());
            lemma_unit_entries(t.at(row, j), p);
            lemma_unit_entries(t.at(k, col), p);
            assert(t.at(k, j) == t.at(k, t.rows[i] as int));
        }
    }
}

/// `a < b <= c` gives `a <= c`.
proof fn lemma_lt_le(a: Rational, b: Rational, c: Rational)
    requires
        a.den > 0,
        b.den > 0,
        c.den > 0,
        a.lt(b),
        !c.lt(b),
    ensures
        !c.lt(a),
{
    assert(a.num * b.den * c.den < b.num * a.den * c.den) by (nonlinear_arith)
        requires
            a.num * b.den < b.num * a.den,
            c.den > 0,
    ;
    assert(b.num * c.den * a.den <= c.num * b.den * a.den) by (nonlinear_arith)
        requires
            b.num * c.den <= c.num * b.den,
            a.den > 0,
    ;
    assert(a.num * c.den <= c.num * a.den) by (nonlinear_arith)
        requires
            a.num * b.den * c.den < b.num * a.den * c.den,
            b.num * c.den * a.den <= c.num * b.den * a.den,
            b.den > 0,
    ;
}

/// The minimum ratio test picks a least ratio among all rows with a positive
/// entry in the column, and every such ratio fits.
proof fn lemma_ratio_scan_min(t: TableModel, col: int, k: nat)
    requires
        t.wf(),
        k <= t.s,
        0 <= col < t.width(),
    ensures
        t.ratio_scan(col, k) == Some(None::<(usize, Rational)>) ==> forall|q: int| 1 <= q <= k ==> (#[trigger] t.at(q, col)).num <= 0,
        t.ratio_scan(col, k) matches Some(Some(best)) ==> best.1.wf() && forall|q: int|
            1 <= q <= k && (#[trigger] t.at(q, col)).num > 0 ==> (t.at(q, t.vcol()).spec_div(t.at(q, col)) matches Some(rho)
                && rho.wf() && !rho.lt(best.1)),
    decreases k,
{
    if k > 0 {
        lemma_ratio_scan_min(t, col, (k - 1) as nat);
        lemma_ratio_scan_row(t, col, (k - 1) as nat);
        let x = t.at(k as int, t.vcol());
        let e = t.at(k as int, col);
        lemma_reduce_wf(x.num * e.den, x.den * e.num);
        if let Some(Some(prev)) = t.ratio_scan(col, (k - 1) as nat) {
            if e.num > 0 {
                if let Some(r) = x.spec_div(e) {
                    if r.lt(prev.1) {
                        assert forall|q: int| 1 <= q < k && (#[trigger] t.at(q, col)).num > 0 implies (t.at(q, t.vcol()).spec_div(
                            t.at(q, col),
                        ) matches Some(rho) && rho.wf() && !rho.lt(r)) by {
                            let rho = t.at(q, t.vcol()).spec_div(t.at(q, col)).unwrap();
                            lemma_lt_le(r, prev.1, rho);
                        }
                    }
                }
            }
        }
    }
}

/// `x - e * theta >= 0` when `e > 0` and `theta <= x / e`.
proof fn lemma_below_ratio(x: Rational, e: Rational, theta: Rational, rho: Rational, m: Rational)
    requires
        x.den > 0,
        e.den > 0,
        theta.den > 0,
        rho.den > 0,
        m.den > 0,
        e.num > 0,
        rho.num * (x.den * e.num) == (x.num * e.den) * rho.den,
        theta.num * rho.den <= rho.num * theta.den,
        m.num * (e.den * theta.den) == (e.num * theta.num) * m.den,
    ensures
        x.num * m.den - m.num * x.den >= 0,
{
    let mn = m.num as int;
    let md = m.den as int;
    let xn = x.num as int;
    let xd = x.den as int;
    let en = e.num as int;
    let ed = e.den as int;
    let tn = theta.num as int;
    let td = theta.den as int;
    let rn = rho.num as int;
    let rd = rho.den as int;
    let w = en * md * xd;
    assert(w > 0) by (nonlinear_arith)
        requires
            en > 0,
            md > 0,
            xd > 0,
            w == en * md * xd,
    ;
    assert(tn * rd * w <= rn * td * w) by (nonlinear_arith)
        requires
            tn * rd <= rn * td,
            w > 0,
    ;
    assert(mn * xd * (ed * td * rd) == tn * rd * w) by (nonlinear_arith)
        requires
            mn * (ed * td) == (en * tn) * md,
            w == en * md * xd,
    ;
    let a1 = rn * (xd * en);
    assert(rn * td * w == a1 * (td * md)) by (nonlinear_arith)
        requires
            a1 == rn * (xd * en),
            w == en * md * xd,
    ;
    assert(a1 * (td * md) == xn * md * (ed * td * rd)) by (nonlinear_arith)
        requires
            a1 == (xn * ed) * rd,
    ;
    let kk = ed * td * rd;
    assert(kk > 0) by (nonlinear_arith)
        requires
            ed > 0,
            td > 0,
            rd > 0,
            kk == ed * td * rd,
    ;
    assert(mn * xd <= xn * md) by (nonlinear_arith)
        requires
            mn * xd * kk <= xn * md * kk,
            kk > 0,
    ;
}

/// Pivoting on a selected pair keeps every constraint row's value
/// nonnegative.
pub proof fn lemma_pivot_keeps_feasible(t: TableModel, enter: usize, leave: usize)
    requires
        t.wf(),
        t.feasible(),
        t.select() == (State::InProgress { enter, leave }),
        t.pivot(enter as int, leave as int) is Some,
    ensures
        t.pivot(enter as int, leave as int).unwrap().feasible(),
{
    let col = enter as int;
    let row = leave as int;
    let u = t.pivot(col, row).unwrap();
    let v = t.vcol();
    assert(t.pivot_fits(col, row));
    lemma_select_in_bounds(t);
    lemma_ratio_scan_row(t, col, t.s);
    lemma_ratio_scan_min(t, col, t.s);
    let best = t.ratio_scan(col, t.s).unwrap().unwrap();
    assert(best.0 == leave);
    let p = t.at(row, col);
    let vr = t.at(row, v);
    let theta = best.1;
    assert(vr.num * p.den >= 0) by (nonlinear_arith)
        requires
            vr.num >= 0,
            p.den > 0,
    ;
    assert(vr.den * p.num > 0) by (nonlinear_arith)
        requires
            vr.den > 0,
            p.num > 0,
    ;
    lemma_reduce_wf(vr.num * p.den, vr.den * p.num);
    lemma_reduce_value(vr.num * p.den, vr.den * p.num);
    assert(theta.num >= 0);
    assert forall|k: int| 1 <= k <= u.s implies (#[trigger] u.at(k, u.vcol())).num >= 0 by {
        assert(t.pivot_entry(col, row, k, v) is Some);
        if k != row {
            let e = t.at(k, col);
            let x = t.at(k, v);
            let m = e.spec_mul(theta).unwrap();
            assert(e.den * theta.den > 0) by (nonlinear_arith)
                requires
                    e.den > 0,
                    theta.den > 0,
            ;
            lemma_reduce_wf(e.num * theta.num, e.den * theta.den);
            lemma_reduce_value(e.num * theta.num, e.den * theta.den);
            assert(x.den * m.den > 0) by (nonlinear_arith)
                requires
                    x.den > 0,
                    m.den > 0,
            ;
            if e.num <= 0 {
                assert(e.num * theta.num <= 0) by (nonlinear_arith)
                    requires
                        e.num <= 0,
                        theta.num >= 0,
                ;
                assert(x.num * m.den - m.num * x.den >= 0) by (nonlinear_arith)
                    requires
                        x.num >= 0,
                        m.den > 0,
                        m.num <= 0,
                        x.den > 0,
                ;
            } else {
                let rho = x.spec_div(e).unwrap();
                assert(x.den * e.num > 0) by (nonlinear_arith)
                    requires
                        x.den > 0,
                        e.num > 0,
                ;
                lemma_reduce_value(x.num * e.den, x.den * e.num);
                lemma_below_ratio(x, e, theta, rho, m);
            }
            lemma_reduce_wf(x.num * m.den - m.num * x.den, x.den * m.den);
        }
    }
}

/// The initial tableau is well formed with the slack basis, and feasible
/// when every right-hand side is nonnegative.
pub proof fn lemma_init_invariants(c: Seq<Rational>, a: Seq<Seq<Rational>>, b: Seq<Rational>, eps: Rational)
    requires
        valid_input(c, a, b, eps),
    ensures
        init_model(c, a, b, eps).wf(),
        init_model(c, a, b, eps).basis_ok(),
        (forall|i: int| 0 <= i < b.len() ==> (#[trigger] b[i]).num >= 0) ==> init_model(c, a, b, eps).feasible(),
{
    let t = init_model(c, a, b, eps);
    assert forall|i: int, j: int| 0 <= i <= t.s && 0 <= j < t.width() implies (#[trigger] t.data[i][j]).wf() by {
        if i == 0 && j < t.x {
            assert(t.data[i][j] == c[j].spec_neg());
        }
    }
}

/// Every tableau reached by a solve keeps the unit basic columns, and stays
/// feasible when it starts feasible.
pub proof fn lemma_run_keeps_invariants(t: TableModel, fuel: nat)
    requires
        t.wf(),
        t.basis_ok(),
    ensures
        run(t, fuel).1.wf(),
        run(t, fuel).1.basis_ok(),
        t.feasible() ==> run(t, fuel).1.feasible(),
    decreases fuel,
{
    if let State::InProgress { enter, leave } = t.select() {
        if fuel > 0 {
            if let Some(u) = t.pivot(enter as int, leave as int) {
                lemma_select_in_bounds(t);
                lemma_pivot_wf(t, enter as int, leave as int);
                lemma_pivot_keeps_basis(t, enter, leave);
                if t.feasible() {
                    lemma_pivot_keeps_feasible(t, enter, leave);
                }
                lemma_run_keeps_invariants(u, (fuel - 1) as nat);
            }
        }
    }
}

proof fn lemma_enter_scan_none_converse(t: TableModel, k: nat)
    requires
        k <= t.x,
        forall|j: int| 0 <= j < t.x ==> !(#[trigger] t.at(0, j)).lt(t.eps.spec_neg()),
    ensures
        t.enter_scan(k) is None,
    decreases k,
{
    if k > 0 {
        lemma_enter_scan_none_converse(t, (k - 1) as nat);
    }
}

} // verus!
