//! Logical equivalence of two expressions by exhaustive enumeration.
//!
//! Both trees are validated, the sorted union of their variables becomes the
//! enumeration universe, and every assignment of that universe is tried.  A
//! variable irrelevant to one side reads as `false` there and never changes
//! that side's value, which is why padding the universe is harmless.

use vstd::prelude::*;
use vstd::arithmetic::power2::pow2;
use crate::eval::truth_table::{
    evaluate_expression, lemma_eval_canonical, map_of_row, pow2_u64, row_assignment, row_index_of,
};
use crate::eval::{
    collect_vars, eval_expr, equivalent_exprs, expr_vars, matches_collect_err, Assignment,
    EvaluationError, Variables,
};
use crate::source::parser::Expr;
use crate::text::lemma_sorted_no_duplicates;

verus! {

/// The outcome of an equivalence check.
#[derive(Debug, Clone)]
pub struct EquivalenceCheck {
    pub equivalent: bool,
    pub variables: Variables,
    pub differences: Vec<EquivalenceDifference>,
}

/// One assignment on which the two expressions disagree.
#[derive(Debug, Clone)]
pub struct EquivalenceDifference {
    pub assignment: Assignment,
    pub left_value: bool,
    pub right_value: bool,
}

/// A difference record over the mathematical model.
pub open spec fn diff_view(d: EquivalenceDifference) -> (Map<Seq<char>, bool>, bool, bool) {
    (d.assignment@, d.left_value, d.right_value)
}

/// A sequence of difference records over the model.
pub open spec fn diffs_view(ds: Seq<EquivalenceDifference>) -> Seq<
    (Map<Seq<char>, bool>, bool, bool),
> {
    ds.map_values(|d: EquivalenceDifference| diff_view(d))
}

/// The mismatching rows among the first `k` rows, in row order: for each the
/// row's assignment and the two values.
pub open spec fn diff_seq(l: Expr, r: Expr, vars: Seq<Seq<char>>, k: nat) -> Seq<
    (Map<Seq<char>, bool>, bool, bool),
>
    decreases k,
{
    if k == 0 {
        Seq::empty()
    } else {
        let prev = diff_seq(l, r, vars, (k - 1) as nat);
        let m = map_of_row(vars, (k - 1) as nat);
        let lv = eval_expr(l, m);
        let rv = eval_expr(r, m);
        if lv != rv {
            prev.push((m, lv, rv))
        } else {
            prev
        }
    }
}

/// No difference among the first `k` rows means the expressions agree on all
/// of them.
pub proof fn lemma_diff_seq_empty(l: Expr, r: Expr, vars: Seq<Seq<char>>, k: nat)
    ensures
        (diff_seq(l, r, vars, k).len() == 0) <==> (forall|j: nat|
            j < k ==> eval_expr(l, map_of_row(vars, j)) == eval_expr(r, #[trigger] map_of_row(vars, j))),
    decreases k,
{
    if k > 0 {
        lemma_diff_seq_empty(l, r, vars, (k - 1) as nat);
    }
}

/// Views commute with appending one record.
proof fn lemma_diffs_view_push(ds: Seq<EquivalenceDifference>, d: EquivalenceDifference)
    ensures
        diffs_view(ds.push(d)) == diffs_view(ds).push(diff_view(d)),
{
    assert forall|k: int| 0 <= k < ds.len() + 1 implies diffs_view(ds.push(d))[k] == diffs_view(
        ds,
    ).push(diff_view(d))[k] by {
        if k < ds.len() {
            assert(ds.push(d)[k] == ds[k]);
        } else {
            assert(ds.push(d)[k] == d);
        }
    }
    assert(diffs_view(ds.push(d)) =~= diffs_view(ds).push(diff_view(d)));
}

/// Checks whether two expressions are logically equivalent, listing every
/// assignment of the joint variables on which they disagree, in canonical row
/// order.
pub fn check_equivalence(left: &Expr, right: &Expr) -> (r: Result<
    EquivalenceCheck,
    EvaluationError,
>)
    ensures
        match r {
            Ok(c) => {
                &&& c.variables.wf()
                &&& collect_vars(*left) is Ok
                &&& collect_vars(*right) is Ok
                &&& c.variables.as_set() == expr_vars(*left).union(expr_vars(*right))
                &&& c.equivalent == equivalent_exprs(*left, *right)
                &&& (c.equivalent <==> c.differences@.len() == 0)
                &&& diffs_view(c.differences@) == diff_seq(
                    *left,
                    *right,
                    c.variables@,
                    pow2(c.variables@.len() as nat),
                )
                &&& forall|j: int|
                    0 <= j < c.differences@.len() ==> (#[trigger] c.differences@[j]).assignment.wf()
            },
            Err(e) => {
                if collect_vars(*left) is Err {
                    matches_collect_err(collect_vars(*left), e)
                } else {
                    collect_vars(*right) is Err && matches_collect_err(collect_vars(*right), e)
                }
            },
        },
{
    let left_vars = match Variables::from_expr(left) {
        Ok(v) => v,
        Err(e) => {
            return Err(e);
        },
    };
    let right_vars = match Variables::from_expr(right) {
        Ok(v) => v,
        Err(e) => {
            return Err(e);
        },
    };
    let all_vars = left_vars.union(&right_vars);
    let num_vars: usize = all_vars.len();
    proof {
        lemma_sorted_no_duplicates(all_vars@);
        assert(all_vars.as_set() =~= expr_vars(*left).union(expr_vars(*right)));
    }

    let count: u64 = pow2_u64(num_vars);
    let mut differences: Vec<EquivalenceDifference> = Vec::new();
    let mut i: u64 = 0;
    while i < count
        invariant
            all_vars.wf(),
            all_vars@.len() == num_vars < 64,
            all_vars.as_set() == expr_vars(*left).union(expr_vars(*right)),
            count == pow2(num_vars as nat),
            0 <= i <= count,
            diffs_view(differences@) == diff_seq(*left, *right, all_vars@, i as nat),
            forall|j: int|
                0 <= j < differences@.len() ==> (#[trigger] differences@[j]).assignment.wf(),
        decreases count - i,
    {
        let assignments = row_assignment(&all_vars, i);
        let left_result = evaluate_expression(left, &assignments);
        let right_result = evaluate_expression(right, &assignments);
        if left_result != right_result {
            let ghost pre = differences@;
            let d = EquivalenceDifference {
                assignment: assignments,
                left_value: left_result,
                right_value: right_result,
            };
            proof {
                lemma_diffs_view_push(pre, d);
            }
            differences.push(d);
        }
        i = i + 1;
    }

    let equivalent = differences.len() == 0;
    proof {
        let n = num_vars as nat;
        lemma_sorted_no_duplicates(all_vars@);
        assert forall|v: Seq<char>| expr_vars(*left).contains(v) implies all_vars@.contains(
            v,
        ) by {
            assert(all_vars.as_set().contains(v));
        }
        assert forall|v: Seq<char>| expr_vars(*right).contains(v) implies all_vars@.contains(
            v,
        ) by {
            assert(all_vars.as_set().contains(v));
        }
        lemma_diff_seq_empty(*left, *right, all_vars@, pow2(n));
        if equivalent {
            assert forall|m: Map<Seq<char>, bool>| eval_expr(*left, m) == eval_expr(
                *right,
                m,
            ) by {
                lemma_eval_canonical(*left, all_vars@, m);
                lemma_eval_canonical(*right, all_vars@, m);
                let j = row_index_of(all_vars@, m);
                assert(eval_expr(*left, map_of_row(all_vars@, j)) == eval_expr(
                    *right,
                    map_of_row(all_vars@, j),
                ));
            }
        } else {
            assert(!(forall|j: nat|
                j < pow2(n) ==> eval_expr(*left, map_of_row(all_vars@, j)) == eval_expr(
                    *right,
                    #[trigger] map_of_row(all_vars@, j),
                )));
            let j = choose|j: nat|
                j < pow2(n) && eval_expr(*left, map_of_row(all_vars@, j)) != eval_expr(
                    *right,
                    #[trigger] map_of_row(all_vars@, j),
                );
            assert(eval_expr(*left, map_of_row(all_vars@, j)) != eval_expr(
                *right,
                map_of_row(all_vars@, j),
            ));
        }
    }
    Ok(EquivalenceCheck { equivalent, variables: all_vars, differences })
}

/// Conjunction is commutative: `A and B` is equivalent to `B and A`, for
/// all subtrees `A` and `B`.
pub proof fn lemma_and_commutes(a: Expr, b: Expr)
    ensures
        equivalent_exprs(
            Expr::And(Box::new(a), Box::new(b)),
            Expr::And(Box::new(b), Box::new(a)),
        ),
{
}

/// Disjunction is commutative: `A or B` is equivalent to `B or A`, for all
/// subtrees `A` and `B`.
pub proof fn lemma_or_commutes(a: Expr, b: Expr)
    ensures
        equivalent_exprs(
            Expr::Or(Box::new(a), Box::new(b)),
            Expr::Or(Box::new(b), Box::new(a)),
        ),
{
}

/// Exclusive or is commutative: `A xor B` is equivalent to `B xor A`, for
/// all subtrees `A` and `B`.
pub proof fn lemma_xor_commutes(a: Expr, b: Expr)
    ensures
        equivalent_exprs(
            Expr::Xor(Box::new(a), Box::new(b)),
            Expr::Xor(Box::new(b), Box::new(a)),
        ),
{
}

} // verus!
