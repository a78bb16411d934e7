use vstd::prelude::*;

use crate::rational::{lemma_reduce_wf, Rational};

verus! {

/// The mathematical state of a tableau.
///
/// Row 0 is the objective row; row `i + 1` has basic variable `rows[i]`.
/// Columns `0..x` are the decision variables, `x..x + s` the slack
/// variables, and column `x + s` holds the values.
pub ghost struct TableModel {
    pub data: Seq<Seq<Rational>>,
    pub rows: Seq<usize>,
    pub x: nat,
    pub s: nat,
    pub eps: Rational,
}

/// Outcome of one round of entering/leaving selection.
#[derive(Clone, Copy, Debug, PartialEq, Eq)]
pub enum State {
    Unbound,
    Finished,
    Overflow,
    InProgress { enter: usize, leave: usize },
}

pub open spec fn rows_view(a: Seq<Vec<Rational>>) -> Seq<Seq<Rational>> {
    a.map_values(|r: Vec<Rational>| r@)
}

/// The inputs describe `max c.x subject to a.x <= b, x >= 0` with a usable tolerance.
pub open spec fn valid_input(c: Seq<Rational>, a: Seq<Seq<Rational>>, b: Seq<Rational>, eps: Rational) -> bool {
    &&& a.len() == b.len()
    &&& forall|i: int| 0 <= i < a.len() ==> (#[trigger] a[i]).len() == c.len()
    &&& forall|j: int| 0 <= j < c.len() ==> (#[trigger] c[j]).wf()
    &&& forall|i: int| 0 <= i < b.len() ==> (#[trigger] b[i]).wf()
    &&& forall|i: int, j: int| 0 <= i < a.len() && 0 <= j < c.len() ==> (#[trigger] a[i][j]).wf()
    &&& eps.wf()
    &&& eps.num >= 0
    &&& c.len() + b.len() + 1 <= usize::MAX
}

pub open spec fn zero() -> Rational {
    Rational { num: 0, den: 1 }
}

pub open spec fn one() -> Rational {
    Rational { num: 1, den: 1 }
}

/// Entry `(i, j)` of the initial tableau.
pub open spec fn init_entry(c: Seq<Rational>, a: Seq<Seq<Rational>>, b: Seq<Rational>, i: int, j: int) -> Rational {
    let n = c.len() as int;
    let m = b.len() as int;
    if i == 0 {
        if j < n {
            c[j].spec_neg()
        } else {
            zero()
        }
    } else if j < n {
        a[i - 1][j]
    } else if j < n + m {
        if j == n + i - 1 {
            one()
        } else {
            zero()
        }
    } else {
        b[i - 1]
    }
}

/// The initial tableau: slack variables basic, objective row `-c`.
pub open spec fn init_model(c: Seq<Rational>, a: Seq<Seq<Rational>>, b: Seq<Rational>, eps: Rational) -> TableModel {
    let n = c.len();
    let m = b.len();
    TableModel {
        data: Seq::new(m + 1, |i: int| Seq::new(n + m + 1, |j: int| init_entry(c, a, b, i, j))),
        rows: Seq::new(m, |i: int| (n + i) as usize),
        x: n,
        s: m,
        eps,
    }
}

impl TableModel {
    /// Index of the value column.
    pub open spec fn vcol(self) -> int {
        (self.x + self.s) as int
    }

    pub open spec fn width(self) -> int {
        (self.x + self.s + 1) as int
    }

    pub open spec fn at(self, i: int, j: int) -> Rational {
        self.data[i][j]
    }

    pub open spec fn wf(self) -> bool {
        &&& self.data.len() == self.s + 1
        &&& forall|i: int| 0 <= i <= self.s ==> (#[trigger] self.data[i]).len() == self.width()
        &&& forall|i: int, j: int| 0 <= i <= self.s && 0 <= j < self.width() ==> (#[trigger] self.data[i][j]).wf()
        &&& self.rows.len() == self.s
        &&& forall|i: int| 0 <= i < self.s ==> (#[trigger] self.rows[i]) < self.x + self.s
        &&& self.eps.wf()
        &&& self.eps.num >= 0
        &&& self.x + self.s + 1 <= usize::MAX
    }

    /// Best entering column among the first `k` decision columns: the first
    /// one with the most negative reduced cost below `-eps`.
    pub open spec fn enter_scan(self, k: nat) -> Option<usize>
        decreases k,
    {
        if k == 0 {
            None
        } else {
            let prev = self.enter_scan((k - 1) as nat);
            let bound = match prev {
                None => self.eps.spec_neg(),
                Some(j) => self.at(0, j as int),
            };
            if self.at(0, k - 1).lt(bound) {
                Some((k - 1) as usize)
            } else {
                prev
            }
        }
    }

    /// Minimum ratio test over rows `1..=k` for column `col`: `None` when a
    /// ratio does not fit, else the first row with the least ratio, if any.
    pub open spec fn ratio_scan(self, col: int, k: nat) -> Option<Option<(usize, Rational)>>
        decreases k,
    {
        if k == 0 {
            Some(None)
        } else {
            match self.ratio_scan(col, (k - 1) as nat) {
                None => None,
                Some(prev) => {
                    let e = self.at(k as int, col);
                    if e.num > 0 {
                        match self.at(k as int, self.vcol()).spec_div(e) {
                            None => None,
                            Some(r) => match prev {
                                None => Some(Some((k as usize, r))),
                                Some(best) => if r.lt(best.1) {
                                    Some(Some((k as usize, r)))
                                } else {
                                    Some(prev)
                                },
                            },
                        }
                    } else {
                        Some(prev)
                    }
                },
            }
        }
    }

    pub open spec fn has_zero_cost(self) -> bool {
        exists|j: int| 0 <= j < self.x && (#[trigger] self.at(0, j)).num == 0
    }

    pub open spec fn has_positive_cost(self) -> bool {
        exists|j: int| 0 <= j < self.x && (#[trigger] self.at(0, j)).num > 0
    }

    /// What one round of selection decides. With no improving column the
    /// tableau counts as unbounded when the decision columns' reduced costs
    /// hold both an exact zero and a positive value, and as finished
    /// otherwise. With an improving column and no row passing the ratio test
    /// it is unbounded too.
    pub open spec fn select(self) -> State {
        match self.enter_scan(self.x) {
            None => if self.has_zero_cost() && self.has_positive_cost() {
                State::Unbound
            } else {
                State::Finished
            },
            Some(col) => match self.ratio_scan(col as int, self.s) {
                None => State::Overflow,
                Some(None) => State::Unbound,
                Some(Some(best)) => State::InProgress { enter: col, leave: best.0 },
            },
        }
    }

    /// Entry `(i, j)` after pivoting on row `row` and column `col`.
    pub open spec fn pivot_entry(self, col: int, row: int, i: int, j: int) -> Option<Rational> {
        let p = self.at(row, col);
        match self.at(row, j).spec_div(p) {
            None => None,
            Some(q) => if i == row {
                Some(q)
            } else {
                match self.at(i, col).spec_mul(q) {
                    None => None,
                    Some(m) => self.at(i, j).spec_sub(m),
                }
            },
        }
    }

    pub open spec fn pivot_fits(self, col: int, row: int) -> bool {
        forall|i: int, j: int| 0 <= i <= self.s && 0 <= j < self.width() ==> (#[trigger] self.pivot_entry(col, row, i, j)).is_some()
    }

    /// The tableau after making `col` basic in row `row`, unless an entry
    /// does not fit.
    pub open spec fn pivot(self, col: int, row: int) -> Option<TableModel> {
        if self.pivot_fits(col, row) {
            Some(TableModel {
                data: Seq::new(self.s + 1, |i: int| Seq::new((self.x + self.s + 1) as nat, |j: int| self.pivot_entry(col, row, i, j).unwrap())),
                rows: self.rows.update(row - 1, col as usize),
                ..self
            })
        } else {
            None
        }
    }

    /// The optimum reached: the value entry of the objective row.
    pub open spec fn objective(self) -> Rational {
        self.at(0, self.vcol())
    }

    /// Decision values after looking at the first `k` basic rows.
    pub open spec fn assignment_upto(self, k: nat) -> Seq<Rational>
        decreases k,
    {
        if k == 0 {
            Seq::new(self.x, |j: int| zero())
        } else {
            let prev = self.assignment_upto((k - 1) as nat);
            let var = self.rows[k - 1] as int;
            if var < self.x {
                prev.update(var, self.at(k as int, self.vcol()))
            } else {
                prev
            }
        }
    }

    /// The value of every decision variable: its row's value if basic, else 0.
    pub open spec fn assignment(self) -> Seq<Rational> {
        self.assignment_upto(self.s)
    }
}

/// A dense simplex tableau with the basic variable of each constraint row.
pub struct Table {
    pub data: Vec<Vec<Rational>>,
    pub rows: Vec<usize>,
    pub x: usize,
    pub s: usize,
    pub eps: Rational,
}

impl View for Table {
    type V = TableModel;

    open spec fn view(&self) -> TableModel {
        TableModel {
            data: rows_view(self.data@),
            rows: self.rows@,
            x: self.x as nat,
            s: self.s as nat,
            eps: self.eps,
        }
    }
}

/// Once a ratio does not fit, the scan stays failed.
proof fn lemma_ratio_scan_stays_none(t: TableModel, col: int, k: nat, k2: nat)
    requires
        k <= k2,
        t.ratio_scan(col, k) is None,
    ensures
        t.ratio_scan(col, k2) is None,
    decreases k2 - k,
{
    if k < k2 {
        lemma_ratio_scan_stays_none(t, col, k, (k2 - 1) as nat);
    }
}

/// The entering column is a decision column.
pub proof fn lemma_enter_scan_bound(t: TableModel, k: nat)
    ensures
        t.enter_scan(k) matches Some(j) ==> j < k,
    decreases k,
{
    if k > 0 {
        lemma_enter_scan_bound(t, (k - 1) as nat);
    }
}

/// The leaving row is a constraint row with a positive entry in the
/// entering column, and its ratio is well formed.
pub proof fn lemma_ratio_scan_row(t: TableModel, col: int, k: nat)
    requires
        k <= usize::MAX,
    ensures
        t.ratio_scan(col, k) matches Some(Some(best)) ==> 1 <= best.0 <= k && t.at(best.0 as int, col).num > 0
            && t.at(best.0 as int, t.vcol()).spec_div(t.at(best.0 as int, col)) == Some(best.1),
    decreases k,
{
    if k > 0 {
        lemma_ratio_scan_row(t, col, (k - 1) as nat);
    }
}

/// A selected pivot lies inside the tableau, on a positive entry.
pub proof fn lemma_select_in_bounds(t: TableModel)
    requires
        t.wf(),
    ensures
        t.select() matches State::InProgress { enter, leave } ==> enter < t.x && 1 <= leave <= t.s
            && t.at(leave as int, enter as int).num > 0,
{
    lemma_enter_scan_bound(t, t.x);
    if let Some(col) = t.enter_scan(t.x) {
        lemma_ratio_scan_row(t, col as int, t.s);
    }
}

/// Pivoting keeps the tableau well formed.
pub proof fn lemma_pivot_wf(t: TableModel, col: int, row: int)
    requires
        t.wf(),
        0 <= col < t.x + t.s,
        1 <= row <= t.s,
        t.pivot(col, row) is Some,
    ensures
        t.pivot(col, row).unwrap().wf(),
{
    let u = t.pivot(col, row).unwrap();
    assert forall|i: int, j: int| 0 <= i <= u.s && 0 <= j < u.width() implies (#[trigger] u.data[i][j]).wf() by {
        assert(t.pivot_entry(col, row, i, j) is Some);
        let p = t.at(row, col);
        lemma_reduce_wf(t.at(row, j).num * p.den, t.at(row, j).den * p.num);
        lemma_reduce_wf(-(t.at(row, j).num * p.den), -(t.at(row, j).den * p.num));
        if let Some(q) = t.at(row, j).spec_div(p) {
            lemma_reduce_wf(t.at(i, col).num * q.num, t.at(i, col).den * q.den);
            if let Some(m) = t.at(i, col).spec_mul(q) {
                lemma_reduce_wf(t.at(i, j).num * m.den - m.num * t.at(i, j).den, t.at(i, j).den * m.den);
            }
        }
    }
}

impl Table {
    /// Entry at row `i`, column `j`.
    pub fn get(&self, i: usize, j: usize) -> (r: Rational)
        requires
            self@.wf(),
            i <= self.s,
            j < self@.width(),
        ensures
            r == self@.at(i as int, j as int),
            r.wf(),
    {
        assert(self@.data[i as int] == self.data@[i as int]@);
        self.data[i][j]
    }

    /// Chooses the entering column and the leaving row, or decides that the
    /// tableau is finished or unbounded.
    pub fn var_change(&self) -> (r: State)
        requires
            self@.wf(),
        ensures
            r == self@.select(),
    {
        let n = self.x;
        let v = self.x + self.s;
        let mut bound = self.eps.neg();
        let mut best: Option<usize> = None;
        let mut j: usize = 0;
        while j < n
            invariant
                self@.wf(),
                n == self.x,
                v == self@.vcol(),
                j <= n,
                best == self@.enter_scan(j as nat),
                bound == (match best {
                    None => self@.eps.spec_neg(),
                    Some(q) => self@.at(0, q as int),
                }),
                bound.wf(),
                best matches Some(q) ==> q < n,
            decreases n - j,
        {
            let cost = self.get(0, j);
            if cost.is_less(&bound) {
                bound = cost;
                best = Some(j);
            }
            j = j + 1;
        }
        match best {
            None => {
                let mut zero = false;
                let mut positive = false;
                let mut k: usize = 0;
                while k < n
                    invariant
                        self@.wf(),
                        n == self.x,
                        k <= n,
                        zero == exists|q: int| 0 <= q < k && (#[trigger] self@.at(0, q)).num == 0,
                        positive == exists|q: int| 0 <= q < k && (#[trigger] self@.at(0, q)).num > 0,
                    decreases n - k,
                {
                    let cost = self.get(0, k);
                    if cost.num == 0 {
                        zero = true;
                    } else if cost.num > 0 {
                        positive = true;
                    }
                    k = k + 1;
                }
                if zero && positive {
                    State::Unbound
                } else {
                    State::Finished
                }
            },
            Some(col) => {
                let mut out: Option<(usize, Rational)> = None;
                let mut k: usize = 1;
                while k <= self.s
                    invariant
                        self@.wf(),
                        col < self.x,
                        self@.enter_scan(self@.x) == Some(col),
                        v == self@.vcol(),
                        1 <= k <= self.s + 1,
                        self@.ratio_scan(col as int, (k - 1) as nat) == Some(out),
                        out matches Some(p) ==> p.1.wf(),
                    decreases self.s + 1 - k,
                {
                    let e = self.get(k, col);
                    if e.num > 0 {
                        match self.get(k, v).checked_div(&e) {
                            None => {
                                proof {
                                    assert(self@.at(k as int, self@.vcol()) == self.data@[k as int]@[v as int]);
                                    assert(self@.ratio_scan(col as int, k as nat) is None);
                                    lemma_ratio_scan_stays_none(self@, col as int, k as nat, self.s as nat);
                                }
                                return State::Overflow;
                            },
                            Some(r) => {
                                match out {
                                    None => {
                                        out = Some((k, r));
                                    },
                                    Some(p) => {
                                        if r.is_less(&p.1) {
                                            out = Some((k, r));
                                        }
                                    },
                                }
                            },
                        }
                    }
                    k = k + 1;
                }
                match out {
                    None => State::Unbound,
                    Some(p) => State::InProgress { enter: col, leave: p.0 },
                }
            },
        }
    }

    /// Pivots: `go_in` becomes the basic variable of row `go_out`, whose
    /// entry in column `go_in` must be nonzero. Returns `false`, leaving the
    /// tableau as it was, when an entry of the result does not fit.
    pub fn change_row(&mut self, go_in: usize, go_out: usize) -> (ok: bool)
        requires
            old(self)@.wf(),
            1 <= go_out <= old(self).s,
            go_in < old(self).x + old(self).s,
            old(self)@.at(go_out as int, go_in as int).num != 0,
        ensures
            ok == old(self)@.pivot_fits(go_in as int, go_out as int),
            ok ==> old(self)@.pivot(go_in as int, go_out as int) == Some(final(self)@),
            !ok ==> *final(self) == *old(self),
    {
        let ghost t = self@;
        let w = self.x + self.s + 1;
        let h = self.s + 1;
        let p = self.get(go_out, go_in);
        let mut pr: Vec<Rational> = Vec::new();
        let mut j: usize = 0;
        while j < w
            invariant
                self@ == t,
                t.wf(),
                w == t.width(),
                1 <= go_out <= t.s,
                p == t.at(go_out as int, go_in as int),
                p.wf(),
                j <= w,
                pr.len() == j,
                forall|q: int| 0 <= q < j ==> t.pivot_entry(go_in as int, go_out as int, go_out as int, q) == Some(#[trigger] pr@[q]),
                forall|q: int| 0 <= q < j ==> (#[trigger] pr@[q]).wf(),
            decreases w - j,
        {
            match self.get(go_out, j).checked_div(&p) {
                None => {
                    assert(t.pivot_entry(go_in as int, go_out as int, go_out as int, j as int) is None);
                    return false;
                },
                Some(q) => {
                    pr.push(q);
                },
            }
            j = j + 1;
        }
        let mut nd: Vec<Vec<Rational>> = Vec::new();
        let mut i: usize = 0;
        while i < h
            invariant
                self@ == t,
                t.wf(),
                w == t.width(),
                h == t.s + 1,
                1 <= go_out <= t.s,
                go_in < t.x + t.s,
                i <= h,
                pr.len() == w,
                forall|q: int| 0 <= q < w ==> t.pivot_entry(go_in as int, go_out as int, go_out as int, q) == Some(#[trigger] pr@[q]),
                forall|q: int| 0 <= q < w ==> (#[trigger] pr@[q]).wf(),
                nd.len() == i,
                forall|k: int, q: int| 0 <= k < i && 0 <= q < w ==> (#[trigger] t.pivot_entry(go_in as int, go_out as int, k, q)) == Some(nd@[k]@[q]),
                forall|k: int| 0 <= k < i ==> (#[trigger] nd@[k])@.len() == w,
            decreases h - i,
        {
            let coef = self.get(i, go_in);
            let mut nr: Vec<Rational> = Vec::new();
            let mut j: usize = 0;
            while j < w
                invariant
                    self@ == t,
                    t.wf(),
                    w == t.width(),
                    h == t.s + 1,
                    1 <= go_out <= t.s,
                    i < h,
                    coef == t.at(i as int, go_in as int),
                    coef.wf(),
                    j <= w,
                    pr.len() == w,
                    forall|q: int| 0 <= q < w ==> t.pivot_entry(go_in as int, go_out as int, go_out as int, q) == Some(#[trigger] pr@[q]),
                    forall|q: int| 0 <= q < w ==> (#[trigger] pr@[q]).wf(),
                    nr.len() == j,
                    forall|q: int| 0 <= q < j ==> (#[trigger] t.pivot_entry(go_in as int, go_out as int, i as int, q)) == Some(nr@[q]),
                decreases w - j,
            {
                if i == go_out {
                    nr.push(pr[j]);
                } else {
                    let m = match coef.checked_mul(&pr[j]) {
                        None => {
                            assert(t.pivot_entry(go_in as int, go_out as int, i as int, j as int) is None);
                            return false;
                        },
                        Some(m) => m,
                    };
                    let e = match self.get(i, j).checked_sub(&m) {
                        None => {
                            assert(t.pivot_entry(go_in as int, go_out as int, i as int, j as int) is None);
                            return false;
                        },
                        Some(e) => e,
                    };
                    nr.push(e);
                }
                j = j + 1;
            }
            nd.push(nr);
            i = i + 1;
        }
        self.data = nd;
        self.rows.set(go_out - 1, go_in);
        proof {
            assert(t.pivot_fits(go_in as int, go_out as int));
            let u = t.pivot(go_in as int, go_out as int).unwrap();
            assert forall|k: int| 0 <= k < h implies #[trigger] self@.data[k] =~= u.data[k] by {
                assert(self@.data[k] == nd@[k]@);
            }
            assert(self@.data =~= u.data);
            assert(self@.rows =~= u.rows);
        }
        true
    }

    /// The objective value: the value entry of the objective row.
    pub fn result(&self) -> (r: Rational)
        requires
            self@.wf(),
        ensures
            r == self@.objective(),
    {
        self.get(0, self.x + self.s)
    }

    /// The value of each decision variable: that of its row if it is basic,
    /// zero otherwise.
    pub fn result_vec(&self) -> (r: Vec<Rational>)
        requires
            self@.wf(),
        ensures
            r@ == self@.assignment(),
    {
        let mut ans: Vec<Rational> = Vec::new();
        let mut j: usize = 0;
        while j < self.x
            invariant
                j <= self.x,
                ans@ =~= Seq::new(j as nat, |q: int| zero()),
            decreases self.x - j,
        {
            ans.push(Rational::zero());
            j = j + 1;
        }
        let v = self.x + self.s;
        let mut k: usize = 0;
        while k < self.s
            invariant
                self@.wf(),
                v == self@.vcol(),
                k <= self.s,
                ans@ == self@.assignment_upto(k as nat),
                ans.len() == self.x,
            decreases self.s - k,
        {
            let var = self.rows[k];
            if var < self.x {
                let val = self.get(k + 1, v);
                ans.set(var, val);
            }
            k = k + 1;
        }
        ans
    }

    /// Builds the initial tableau of `max c.x subject to a.x <= b, x >= 0`.
    pub fn init(c: &Vec<Rational>, a: &Vec<Vec<Rational>>, b: &Vec<Rational>, eps: Rational) -> (t: Table)
        requires
            valid_input(c@, rows_view(a@), b@, eps),
        ensures
            t@ == init_model(c@, rows_view(a@), b@, eps),
            t@.wf(),
    {
        let ghost av = rows_view(a@);
        let n = c.len();
        let m = b.len();
        let w = n + m + 1;
        let mut data: Vec<Vec<Rational>> = Vec::new();
        let mut i: usize = 0;
        while i <= m
            invariant
                valid_input(c@, av, b@, eps),
                av == rows_view(a@),
                n == c.len(),
                m == b.len(),
                w == n + m + 1,
                i <= m + 1,
                data.len() == i,
                forall|k: int| 0 <= k < i ==> (#[trigger] data@[k])@ == Seq::new(w as nat, |j: int| init_entry(c@, av, b@, k, j)),
            decreases m + 1 - i,
        {
            let mut row: Vec<Rational> = Vec::new();
            let mut j: usize = 0;
            while j < w
                invariant
                    valid_input(c@, av, b@, eps),
                    av == rows_view(a@),
                    n == c.len(),
                    m == b.len(),
                    w == n + m + 1,
                    i <= m,
                    j <= w,
                    row.len() == j,
                    forall|k: int| 0 <= k < j ==> row@[k] == init_entry(c@, av, b@, i as int, k),
                decreases w - j,
            {
                let e = if i == 0 {
                    if j < n {
                        c[j].neg()
                    } else {
                        Rational::zero()
                    }
                } else if j < n {
                    assert(av[i - 1] == a@[i - 1]@);
                    a[i - 1][j]
                } else if j < n + m {
                    if j == n + i - 1 {
                        Rational::one()
                    } else {
                        Rational::zero()
                    }
                } else {
                    b[i - 1]
                };
                row.push(e);
                j = j + 1;
            }
            assert(row@ =~= Seq::new(w as nat, |k: int| init_entry(c@, av, b@, i as int, k)));
            data.push(row);
            i = i + 1;
        }
        let mut rows: Vec<usize> = Vec::new();
        let mut k: usize = 0;
        while k < m
            invariant
                n == c.len(),
                m == b.len(),
                w == n + m + 1,
                k <= m,
                rows@ =~= Seq::new(k as nat, |q: int| (n + q) as usize),
            decreases m - k,
        {
            rows.push(n + k);
            k = k + 1;
        }
        let t = Table { data, rows, x: n, s: m, eps };
        assert(t@.data =~= init_model(c@, av, b@, eps).data);
        t
    }
}

} // verus!
