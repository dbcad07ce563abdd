//! Truth tables: canonical row enumeration and expression evaluation.
//!
//! The canonical bit mapping: in row `i`, the variable at sorted position `p`
//! carries bit `p` of `i` (`(i >> p) & 1`), lower bits first.  The same
//! mapping is used by the equivalence checker and by the minimizer.

use vstd::prelude::*;
use vstd::arithmetic::power2::pow2;
use vstd::string::StringExecFns;
use crate::config::MAX_VARIABLES;
use crate::eval::{
    collect_vars, eval_expr, expr_vars, lookup, matches_collect_err, Assignment, CollectError,
    EvaluationError, Variables,
};
use crate::source::parser::Expr;
use crate::text::lemma_sorted_no_duplicates;

verus! {

/// Bit `p` of the row index `i`.
pub open spec fn nth_bit(i: nat, p: nat) -> bool {
    (i / pow2(p)) % 2 == 1
}

/// The assignment of row `i` over the sorted variables `vars`: the variable
/// at position `p` carries bit `p` of `i`, and no other name is present.
pub open spec fn map_of_row(vars: Seq<Seq<char>>, i: nat) -> Map<Seq<char>, bool> {
    Map::new(
        |k: Seq<char>| vars.contains(k),
        |k: Seq<char>| nth_bit(i, vars.index_of(k) as nat),
    )
}

/// The row index that an assignment induces over the sorted variables: the
/// sum of `2^p` over the positions `p` whose variable reads `true`.
pub open spec fn row_index_of(vars: Seq<Seq<char>>, m: Map<Seq<char>, bool>) -> nat
    decreases vars.len(),
{
    if vars.len() == 0 {
        0
    } else {
        row_index_of(vars.drop_last(), m) + if lookup(m, vars.last()) {
            pow2((vars.len() - 1) as nat)
        } else {
            0nat
        }
    }
}

/// In a duplicate-free sequence, `index_of` inverts indexing.
pub proof fn lemma_index_of_distinct(vars: Seq<Seq<char>>, p: int)
    requires
        vars.no_duplicates(),
        0 <= p < vars.len(),
    ensures
        vars.index_of(vars[p]) == p,
{
    assert(vars.contains(vars[p]));
}

/// Bit 0 is the parity.
proof fn lemma_bit_zero(x: nat)
    ensures
        nth_bit(x, 0) == (x % 2 == 1),
{
    vstd::arithmetic::power2::lemma2_to64();
    assert(x / 1 == x) by (nonlinear_arith);
}

/// Shifting right by one drops bit 0.
proof fn lemma_bit_shift(x: nat, p: nat)
    ensures
        nth_bit(x, p + 1) == nth_bit(x / 2, p),
{
    vstd::arithmetic::power2::lemma2_to64();
    vstd::arithmetic::power2::lemma_pow2_adds(1, p);
    vstd::arithmetic::power2::lemma_pow2_pos(p);
    vstd::arithmetic::div_mod::lemma_div_denominator(x as int, 2, pow2(p) as int);
    assert(pow2(p + 1) == 2 * pow2(p));
    assert((x as int / 2) / (pow2(p) as int) == x as int / (2 * pow2(p) as int));
}

/// Two indices below `2^n` with the same low `n` bits are equal.
pub proof fn lemma_bits_equal(x: nat, y: nat, n: nat)
    requires
        x < pow2(n),
        y < pow2(n),
        forall|p: nat| p < n ==> nth_bit(x, p) == nth_bit(y, p),
    ensures
        x == y,
    decreases n,
{
    vstd::arithmetic::power2::lemma2_to64();
    if n == 0 {
        // pow2(0) == 1, so both are 0
    } else {
        lemma_bit_zero(x);
        lemma_bit_zero(y);
        assert(nth_bit(x, 0) == nth_bit(y, 0));
        assert(x % 2 == y % 2) by {
            vstd::arithmetic::div_mod::lemma_mod_bound(x as int, 2);
            vstd::arithmetic::div_mod::lemma_mod_bound(y as int, 2);
        }
        assert(x / 2 < pow2((n - 1) as nat) && y / 2 < pow2((n - 1) as nat)) by {
            vstd::arithmetic::power2::lemma_pow2_adds(1, (n - 1) as nat);
            assert(pow2(n) == 2 * pow2((n - 1) as nat));
            assert(x / 2 < pow2((n - 1) as nat)) by (nonlinear_arith)
                requires
                    x < 2 * pow2((n - 1) as nat),
            ;
            assert(y / 2 < pow2((n - 1) as nat)) by (nonlinear_arith)
                requires
                    y < 2 * pow2((n - 1) as nat),
            ;
        }
        assert forall|p: nat| p < (n - 1) as nat implies #[trigger] nth_bit(x / 2, p) == nth_bit(
            y / 2,
            p,
        ) by {
            lemma_bit_shift(x, p);
            lemma_bit_shift(y, p);
            assert(nth_bit(x, p + 1) == nth_bit(y, p + 1));
        }
        lemma_bits_equal(x / 2, y / 2, (n - 1) as nat);
        vstd::arithmetic::div_mod::lemma_fundamental_div_mod(x as int, 2);
        vstd::arithmetic::div_mod::lemma_fundamental_div_mod(y as int, 2);
    }
}

/// Adding `2^k` to an index below `2^k` sets bit `k` and keeps the bits
/// below `k`.
proof fn lemma_bit_add_pow2(x: nat, k: nat, p: nat)
    requires
        x < pow2(k),
    ensures
        p < k ==> nth_bit(x + pow2(k), p) == nth_bit(x, p),
        nth_bit(x + pow2(k), k) == true,
        nth_bit(x, k) == false,
    decreases k,
{
    vstd::arithmetic::power2::lemma_pow2_pos(k);
    vstd::arithmetic::power2::lemma_pow2_pos(p);
    if p < k {
        vstd::arithmetic::power2::lemma_pow2_adds(p, (k - p) as nat);
        assert(pow2(k) == pow2(p) * pow2((k - p) as nat));
        let q = pow2((k - p) as nat) as int;
        // (x + pow2(p) * q) / pow2(p) == x / pow2(p) + q
        vstd::arithmetic::div_mod::lemma_hoist_over_denominator(
            x as int,
            q,
            pow2(p),
        );
        assert((x as int + q * pow2(p) as int) / pow2(p) as int == x as int / pow2(p) as int + q);
        assert(q * pow2(p) as int == pow2(p) as int * q) by (nonlinear_arith);
        // q is even, so the parity is unchanged
        vstd::arithmetic::power2::lemma_pow2_adds(1, (k - p - 1) as nat);
        vstd::arithmetic::power2::lemma2_to64();
        assert(q == 2 * pow2((k - p - 1) as nat));
        vstd::arithmetic::div_mod::lemma_mod_multiples_vanish(
            pow2((k - p - 1) as nat) as int,
            x as int / pow2(p) as int,
            2,
        );
    }
    // bit k of x is 0
    assert(x as int / pow2(k) as int == 0) by {
        vstd::arithmetic::div_mod::lemma_basic_div(x as int, pow2(k) as int);
    }
    // bit k of x + pow2(k) is 1
    assert((x as int + pow2(k) as int) / pow2(k) as int == 1) by {
        vstd::arithmetic::div_mod::lemma_hoist_over_denominator(x as int, 1, pow2(k));
        assert(1 * pow2(k) as int == pow2(k) as int) by (nonlinear_arith);
    }
}

/// The induced row index sits below `2^n`.
pub proof fn lemma_row_index_bound(vars: Seq<Seq<char>>, m: Map<Seq<char>, bool>)
    ensures
        row_index_of(vars, m) < pow2(vars.len() as nat),
    decreases vars.len(),
{
    vstd::arithmetic::power2::lemma2_to64();
    if vars.len() == 0 {
    } else {
        lemma_row_index_bound(vars.drop_last(), m);
        vstd::arithmetic::power2::lemma_pow2_adds(1, (vars.len() - 1) as nat);
    }
}

/// Bit `p` of the induced row index is the value the assignment gives the
/// variable at position `p`.
pub proof fn lemma_row_index_bits(vars: Seq<Seq<char>>, m: Map<Seq<char>, bool>, p: int)
    requires
        0 <= p < vars.len(),
    ensures
        nth_bit(row_index_of(vars, m), p as nat) == lookup(m, vars[p]),
    decreases vars.len(),
{
    let n = vars.len() as int;
    let rest = row_index_of(vars.drop_last(), m);
    lemma_row_index_bound(vars.drop_last(), m);
    if p == n - 1 {
        lemma_bit_add_pow2(rest, (n - 1) as nat, 0);
        if lookup(m, vars.last()) {
            assert(row_index_of(vars, m) == rest + pow2((n - 1) as nat));
        } else {
            assert(row_index_of(vars, m) == rest);
        }
    } else {
        lemma_row_index_bits(vars.drop_last(), m, p);
        assert(vars.drop_last()[p] == vars[p]);
        lemma_bit_add_pow2(rest, (n - 1) as nat, p as nat);
        if lookup(m, vars.last()) {
            assert(row_index_of(vars, m) == rest + pow2((n - 1) as nat));
        } else {
            assert(row_index_of(vars, m) == rest);
        }
    }
}

/// What the assignment of row `i` reads at position `p`.
pub proof fn lemma_map_of_row_lookup(vars: Seq<Seq<char>>, i: nat, p: int)
    requires
        vars.no_duplicates(),
        0 <= p < vars.len(),
    ensures
        lookup(map_of_row(vars, i), vars[p]) == nth_bit(i, p as nat),
{
    assert(vars.contains(vars[p]));
    lemma_index_of_distinct(vars, p);
}

/// The value of an expression depends only on what the assignment gives the
/// expression's own variables.
pub proof fn lemma_eval_agrees(e: Expr, m1: Map<Seq<char>, bool>, m2: Map<Seq<char>, bool>)
    requires
        forall|v: Seq<char>| expr_vars(e).contains(v) ==> lookup(m1, v) == lookup(m2, v),
    ensures
        eval_expr(e, m1) == eval_expr(e, m2),
    decreases e,
{
    match e {
        Expr::Identifier(name) => {
            assert(expr_vars(e).contains(name@));
        },
        Expr::Not(inner) => {
            lemma_eval_agrees(*inner, m1, m2);
        },
        Expr::And(l, r) => {
            lemma_eval_agrees(*l, m1, m2);
            lemma_eval_agrees(*r, m1, m2);
        },
        Expr::Or(l, r) => {
            lemma_eval_agrees(*l, m1, m2);
            lemma_eval_agrees(*r, m1, m2);
        },
        Expr::Xor(l, r) => {
            lemma_eval_agrees(*l, m1, m2);
            lemma_eval_agrees(*r, m1, m2);
        },
        Expr::Implication(l, r) => {
            lemma_eval_agrees(*l, m1, m2);
            lemma_eval_agrees(*r, m1, m2);
        },
    }
}

/// Every assignment evaluates like its canonical row: the row whose index it
/// induces.  This is why enumerating the `2^n` rows decides a property for
/// all assignments.
pub proof fn lemma_eval_canonical(e: Expr, vars: Seq<Seq<char>>, m: Map<Seq<char>, bool>)
    requires
        vars.no_duplicates(),
        forall|v: Seq<char>| expr_vars(e).contains(v) ==> vars.contains(v),
    ensures
        row_index_of(vars, m) < pow2(vars.len() as nat),
        eval_expr(e, m) == eval_expr(e, map_of_row(vars, row_index_of(vars, m))),
{
    let i = row_index_of(vars, m);
    lemma_row_index_bound(vars, m);
    assert forall|v: Seq<char>| expr_vars(e).contains(v) implies lookup(m, v) == lookup(
        map_of_row(vars, i),
        v,
    ) by {
        let p = vars.index_of(v);
        assert(vars.contains(v));
        assert(0 <= p < vars.len() && vars[p] == v);
        lemma_row_index_bits(vars, m, p);
        lemma_map_of_row_lookup(vars, i, p);
    }
    lemma_eval_agrees(e, m, map_of_row(vars, i));
}

/// Computes bit `p` of `i`.
pub fn get_bit(i: u64, p: usize) -> (b: bool)
    requires
        p < 64,
    ensures
        b == nth_bit(i as nat, p as nat),
{
    let r: u64 = (i >> (p as u64)) & 1;
    proof {
        vstd::bits::lemma_u64_shr_is_div(i, p as u64);
        assert((i >> (p as u64)) & 1 == (i >> (p as u64)) % 2) by (bit_vector);
        vstd::arithmetic::power2::lemma_pow2_pos(p as nat);
    }
    r == 1
}

/// Computes `2^n`.
pub fn pow2_u64(n: usize) -> (r: u64)
    requires
        n < 64,
    ensures
        r == pow2(n as nat),
        r >= 1,
{
    proof {
        vstd::bits::lemma_u64_pow2_no_overflow(n as nat);
        vstd::bits::lemma_u64_shl_is_mul(1u64, n as u64);
        assert(1 * pow2(n as nat) == pow2(n as nat)) by (nonlinear_arith);
        vstd::arithmetic::power2::lemma_pow2_pos(n as nat);
    }
    1u64 << (n as u64)
}

/// Builds the assignment of row `i`.
pub fn row_assignment(vars: &Variables, i: u64) -> (a: Assignment)
    requires
        vars.wf(),
        vars@.len() < 64,
    ensures
        a.wf(),
        a@ == map_of_row(vars@, i as nat),
{
    let mut a = Assignment::new();
    let n: usize = vars.len();
    let mut p: usize = 0;
    while p < n
        invariant
            vars.wf(),
            vars@.len() == n < 64,
            a.wf(),
            0 <= p <= n,
            forall|q: int|
                0 <= q < p ==> a@.contains_key(#[trigger] vars@[q]) && a@[vars@[q]] == nth_bit(
                    i as nat,
                    q as nat,
                ),
            forall|k: Seq<char>|
                a@.contains_key(k) ==> exists|q: int| 0 <= q < p && vars@[q] == k,
        decreases n - p,
    {
        let value = get_bit(i, p);
        a.insert(vars.name_at(p).clone(), value);
        proof {
            lemma_sorted_no_duplicates(vars@);
            assert forall|q: int| 0 <= q < p + 1 implies a@.contains_key(#[trigger] vars@[q])
                && a@[vars@[q]] == nth_bit(i as nat, q as nat) by {
                if q < p {
                    assert(vars@[q] != vars@[p as int]);
                }
            }
        }
        p = p + 1;
    }
    proof {
        lemma_sorted_no_duplicates(vars@);
        assert(a@ =~= map_of_row(vars@, i as nat)) by {
            assert forall|k: Seq<char>| #[trigger]
                map_of_row(vars@, i as nat).contains_key(k) implies a@.contains_key(k)
                && a@[k] == map_of_row(vars@, i as nat)[k] by {
                let q = vars@.index_of(k);
                assert(vars@.contains(k));
                assert(0 <= q < vars@.len() && vars@[q] == k);
                lemma_index_of_distinct(vars@, q);
            }
            assert forall|k: Seq<char>| a@.contains_key(k) implies map_of_row(
                vars@,
                i as nat,
            ).contains_key(k) by {
                let q = choose|q: int| 0 <= q < n && vars@[q] == k;
                assert(vars@.contains(k));
            }
        }
    }
    a
}

/// Evaluates an expression under an assignment; a missing variable reads as
/// `false`; both operands of a binary node are always evaluated.
pub fn evaluate_expression(expr: &Expr, assignments: &Assignment) -> (r: bool)
    requires
        assignments.wf(),
    ensures
        r == eval_expr(*expr, assignments@),
    decreases *expr,
{
    match expr {
        Expr::Identifier(name) => assignments.get(name.as_str()),
        Expr::Not(inner) => !evaluate_expression(inner, assignments),
        Expr::And(l, r) => {
            let lv = evaluate_expression(l, assignments);
            let rv = evaluate_expression(r, assignments);
            lv && rv
        },
        Expr::Or(l, r) => {
            let lv = evaluate_expression(l, assignments);
            let rv = evaluate_expression(r, assignments);
            lv || rv
        },
        Expr::Xor(l, r) => {
            let lv = evaluate_expression(l, assignments);
            let rv = evaluate_expression(r, assignments);
            lv != rv
        },
        Expr::Implication(l, r) => {
            let lv = evaluate_expression(l, assignments);
            let rv = evaluate_expression(r, assignments);
            !lv || rv
        },
    }
}

/// One row of a truth table.
#[derive(Debug, Clone)]
pub struct TruthTableRow {
    pub assignments: Assignment,
    pub result: bool,
}

/// A full truth table: one row per assignment of the variables, in canonical
/// order.
#[derive(Debug, Clone)]
pub struct TruthTable {
    pub variables: Variables,
    pub rows: Vec<TruthTableRow>,
}

impl TruthTable {
    /// A table over the given variables with no rows yet.
    pub fn new(variables: Variables) -> (r: Self)
        ensures
            r.variables == variables,
            r.rows@.len() == 0,
    {
        Self { variables, rows: Vec::new() }
    }

    /// A builder for assembling tables row by row.
    pub fn builder() -> (r: TruthTableBuilder)
        ensures
            r.variables is None,
            r.rows@.len() == 0,
    {
        TruthTableBuilder::new()
    }
}

/// Assembles a truth table incrementally.
pub struct TruthTableBuilder {
    pub variables: Option<Variables>,
    pub rows: Vec<TruthTableRow>,
}

impl TruthTableBuilder {
    pub fn new() -> (r: Self)
        ensures
            r.variables is None,
            r.rows@.len() == 0,
    {
        Self { variables: None, rows: Vec::new() }
    }

    /// Sets the variables of the table.
    pub fn variables(self, variables: Variables) -> (r: Self)
        ensures
            r.variables == Some(variables),
            r.rows == self.rows,
    {
        let mut s = self;
        s.variables = Some(variables);
        s
    }

    /// Appends one row.
    pub fn add_row(self, row: TruthTableRow) -> (r: Self)
        ensures
            r.variables == self.variables,
            r.rows@ == self.rows@.push(row),
    {
        let mut s = self;
        s.rows.push(row);
        s
    }

    /// Appends several rows.
    pub fn add_rows(self, rows: Vec<TruthTableRow>) -> (r: Self)
        ensures
            r.variables == self.variables,
            r.rows@ == self.rows@ + rows@,
    {
        let mut s = self;
        let mut more = rows;
        s.rows.append(&mut more);
        s
    }

    /// Finishes the table; fails when no variables were set.
    pub fn build(self) -> (r: Result<TruthTable, EvaluationError>)
        ensures
            match r {
                Ok(t) => self.variables == Some(t.variables) && t.rows == self.rows,
                Err(e) => self.variables is None && e is ExpressionTooComplex,
            },
    {
        match self.variables {
            Some(variables) => Ok(TruthTable { variables, rows: self.rows }),
            None => Err(EvaluationError::ExpressionTooComplex {
                reason: String::from_str("Variables must be set when building a truth table"),
            }),
        }
    }
}

impl Default for TruthTableBuilder {
    /// An empty builder.
    fn default() -> (r: Self)
        ensures
            r.variables is None,
            r.rows@.len() == 0,
    {
        TruthTableBuilder::new()
    }
}

/// The row at index `i` is the canonical assignment of row `i` together with
/// the value of the expression under it.
pub open spec fn row_ok(expr: Expr, vars: Seq<Seq<char>>, row: TruthTableRow, i: nat) -> bool {
    &&& row.assignments.wf()
    &&& row.assignments@ == map_of_row(vars, i)
    &&& row.result == eval_expr(expr, map_of_row(vars, i))
}

/// Generates the full truth table of an expression: `2^n` rows in canonical
/// order (exactly one row when the expression has no variables).
pub fn generate_truth_table(expr: &Expr) -> (r: Result<TruthTable, EvaluationError>)
    ensures
        match r {
            Ok(t) => {
                &&& t.variables.wf()
                &&& t.variables@.len() <= MAX_VARIABLES
                &&& t.variables.as_set() == expr_vars(*expr)
                &&& collect_vars(*expr) is Ok
                &&& t.rows@.len() == pow2(t.variables@.len() as nat)
                &&& forall|i: int|
                    0 <= i < t.rows@.len() ==> row_ok(*expr, t.variables@, #[trigger] t.rows@[i], i as nat)
            },
            Err(e) => collect_vars(*expr) is Err && matches_collect_err(collect_vars(*expr), e),
        },
{
    let variables = match Variables::from_expr(expr) {
        Ok(v) => v,
        Err(e) => {
            return Err(e);
        },
    };
    let num_vars: usize = variables.len();
    let count: u64 = pow2_u64(num_vars);
    let mut rows: Vec<TruthTableRow> = Vec::new();
    let mut i: u64 = 0;
    while i < count
        invariant
            variables.wf(),
            variables@.len() == num_vars <= MAX_VARIABLES,
            count == pow2(num_vars as nat),
            0 <= i <= count,
            rows@.len() == i,
            forall|j: int| 0 <= j < i ==> row_ok(*expr, variables@, #[trigger] rows@[j], j as nat),
        decreases count - i,
    {
        let assignments = row_assignment(&variables, i);
        let result = evaluate_expression(expr, &assignments);
        rows.push(TruthTableRow { assignments, result });
        i = i + 1;
    }
    Ok(TruthTable { variables, rows })
}

} // verus!
