//! Two-level minimization of boolean expressions (Quine-McCluskey).
//!
//! The ON-set of the expression is computed over the canonical row
//! enumeration, seed implicants are combined pairwise until only prime
//! implicants remain, a cover is selected (essential implicants first, then a
//! greedy heuristic), and the cover is rebuilt as a sum of products.  The
//! greedy phase approximates minimum set cover; results are "simplified",
//! never "provably smallest".

use vstd::prelude::*;
use vstd::arithmetic::power2::pow2;
use vstd::string::StringExecFns;
use crate::config::MAX_VARIABLES;
use crate::eval::truth_table::{
    evaluate_expression, get_bit, lemma_bits_equal, lemma_eval_canonical, lemma_row_index_bits,
    lemma_row_index_bound, map_of_row, nth_bit, pow2_u64, row_assignment, row_index_of,
};
use crate::eval::{
    collect_vars, eval_expr, equivalent_exprs, expr_vars, lookup, matches_collect_err,
    EvaluationError, Variables,
};
use crate::source::parser::Expr;
use crate::text::lemma_sorted_no_duplicates;

verus! {

/// The outcome of a reduction.
#[derive(Debug)]
pub struct Reduction {
    pub original: Expr,
    pub reduced: Expr,
    pub simplified: bool,
}

/// Structural equality of two trees, up to swapping the operands of any
/// binary operator.  This is not a logical-equivalence check.
pub open spec fn struct_equiv(a: Expr, b: Expr) -> bool
    decreases a,
{
    match (a, b) {
        (Expr::Identifier(x), Expr::Identifier(y)) => x@ == y@,
        (Expr::Not(p), Expr::Not(q)) => struct_equiv(*p, *q),
        (Expr::And(l1, r1), Expr::And(l2, r2)) => (struct_equiv(*l1, *l2) && struct_equiv(
            *r1,
            *r2,
        )) || (struct_equiv(*l1, *r2) && struct_equiv(*r1, *l2)),
        (Expr::Or(l1, r1), Expr::Or(l2, r2)) => (struct_equiv(*l1, *l2) && struct_equiv(*r1, *r2))
            || (struct_equiv(*l1, *r2) && struct_equiv(*r1, *l2)),
        (Expr::Xor(l1, r1), Expr::Xor(l2, r2)) => (struct_equiv(*l1, *l2) && struct_equiv(
            *r1,
            *r2,
        )) || (struct_equiv(*l1, *r2) && struct_equiv(*r1, *l2)),
        (Expr::Implication(l1, r1), Expr::Implication(l2, r2)) => (struct_equiv(*l1, *l2)
            && struct_equiv(*r1, *r2)) || (struct_equiv(*l1, *r2) && struct_equiv(*r1, *l2)),
        _ => false,
    }
}

/// Structural equality is reflexive.
pub proof fn lemma_struct_equiv_refl(e: Expr)
    ensures
        struct_equiv(e, e),
    decreases e,
{
    match e {
        Expr::Identifier(x) => {},
        Expr::Not(p) => {
            lemma_struct_equiv_refl(*p);
        },
        Expr::And(l, r) => {
            lemma_struct_equiv_refl(*l);
            lemma_struct_equiv_refl(*r);
        },
        Expr::Or(l, r) => {
            lemma_struct_equiv_refl(*l);
            lemma_struct_equiv_refl(*r);
        },
        Expr::Xor(l, r) => {
            lemma_struct_equiv_refl(*l);
            lemma_struct_equiv_refl(*r);
        },
        Expr::Implication(l, r) => {
            lemma_struct_equiv_refl(*l);
            lemma_struct_equiv_refl(*r);
        },
    }
}

/// Compares two trees structurally, treating each binary operator as
/// commutative.
pub fn expressions_equivalent_structure(a: &Expr, b: &Expr) -> (r: bool)
    ensures
        r == struct_equiv(*a, *b),
    decreases *a,
{
    match (a, b) {
        (Expr::Identifier(x), Expr::Identifier(y)) => crate::text::str_eq(x.as_str(), y.as_str()),
        (Expr::Not(p), Expr::Not(q)) => expressions_equivalent_structure(p, q),
        (Expr::And(l1, r1), Expr::And(l2, r2)) => {
            (expressions_equivalent_structure(l1, l2) && expressions_equivalent_structure(r1, r2))
                || (expressions_equivalent_structure(l1, r2) && expressions_equivalent_structure(
                r1,
                l2,
            ))
        },
        (Expr::Or(l1, r1), Expr::Or(l2, r2)) => {
            (expressions_equivalent_structure(l1, l2) && expressions_equivalent_structure(r1, r2))
                || (expressions_equivalent_structure(l1, r2) && expressions_equivalent_structure(
                r1,
                l2,
            ))
        },
        (Expr::Xor(l1, r1), Expr::Xor(l2, r2)) => {
            (expressions_equivalent_structure(l1, l2) && expressions_equivalent_structure(r1, r2))
                || (expressions_equivalent_structure(l1, r2) && expressions_equivalent_structure(
                r1,
                l2,
            ))
        },
        (Expr::Implication(l1, r1), Expr::Implication(l2, r2)) => {
            (expressions_equivalent_structure(l1, l2) && expressions_equivalent_structure(r1, r2))
                || (expressions_equivalent_structure(l1, r2) && expressions_equivalent_structure(
                r1,
                l2,
            ))
        },
        _ => false,
    }
}

/// The tautology sentinel `(true \u{2228} \u{00ac}true)`, written with the
/// identifier `true`: no constant node kind exists, and this exact shape is
/// preserved for output round trips.
pub open spec fn is_taut_sentinel(e: Expr) -> bool {
    &&& e is Or
    &&& (*e->Or_0) is Identifier
    &&& (*e->Or_0)->Identifier_0@ == "true"@
    &&& (*e->Or_1) is Not
    &&& (*(*e->Or_1)->Not_0) is Identifier
    &&& (*(*e->Or_1)->Not_0)->Identifier_0@ == "true"@
}

/// The contradiction sentinel `(false \u{2227} \u{00ac}false)`.
pub open spec fn is_contra_sentinel(e: Expr) -> bool {
    &&& e is And
    &&& (*e->And_0) is Identifier
    &&& (*e->And_0)->Identifier_0@ == "false"@
    &&& (*e->And_1) is Not
    &&& (*(*e->And_1)->Not_0) is Identifier
    &&& (*(*e->And_1)->Not_0)->Identifier_0@ == "false"@
}

/// Builds the tautology sentinel, which is true under every assignment.
fn make_taut_sentinel() -> (e: Expr)
    ensures
        is_taut_sentinel(e),
        forall|m: Map<Seq<char>, bool>| eval_expr(e, m),
{
    let e = Expr::Or(
        Box::new(Expr::Identifier(String::from_str("true"))),
        Box::new(Expr::Not(Box::new(Expr::Identifier(String::from_str("true"))))),
    );
    proof {
        assert forall|m: Map<Seq<char>, bool>| eval_expr(e, m) by {
            reveal_with_fuel(eval_expr, 4);
            assert(eval_expr(e, m) == (lookup(m, "true"@) || !lookup(m, "true"@)));
        }
    }
    e
}

/// Builds the contradiction sentinel, which is false under every assignment.
fn make_contra_sentinel() -> (e: Expr)
    ensures
        is_contra_sentinel(e),
        forall|m: Map<Seq<char>, bool>| !eval_expr(e, m),
{
    let e = Expr::And(
        Box::new(Expr::Identifier(String::from_str("false"))),
        Box::new(Expr::Not(Box::new(Expr::Identifier(String::from_str("false"))))),
    );
    proof {
        assert forall|m: Map<Seq<char>, bool>| !eval_expr(e, m) by {
            reveal_with_fuel(eval_expr, 4);
            assert(eval_expr(e, m) == (lookup(m, "false"@) && !lookup(m, "false"@)));
        }
    }
    e
}

/// A literal over the given variables: a variable or its negation.
pub open spec fn is_literal(e: Expr, vars: Set<Seq<char>>) -> bool {
    ||| (e is Identifier && vars.contains(e->Identifier_0@))
    ||| (e is Not && (*e->Not_0) is Identifier && vars.contains((*e->Not_0)->Identifier_0@))
}

/// A product term: a left-associated chain of conjunctions of literals.
pub open spec fn is_product(e: Expr, vars: Set<Seq<char>>) -> bool
    decreases e,
{
    ||| is_literal(e, vars)
    ||| (e is And && is_product(*e->And_0, vars) && is_literal(*e->And_1, vars))
}

/// A two-level sum of products over the given variables: a left-associated
/// chain of disjunctions of product terms.  No other connective occurs.
pub open spec fn is_sum_of_products(e: Expr, vars: Set<Seq<char>>) -> bool
    decreases e,
{
    ||| is_product(e, vars)
    ||| (e is Or && is_sum_of_products(*e->Or_0, vars) && is_product(*e->Or_1, vars))
}

/// A strictly increasing sequence of row indices.
pub open spec fn sorted_u64(s: Seq<u64>) -> bool {
    forall|i: int, j: int| 0 <= i < j < s.len() ==> s[i] < s[j]
}

/// One tri-state constraint is met by a row index.
pub open spec fn bit_ok(ob: Option<bool>, i: nat, p: int) -> bool {
    ob matches Some(b) ==> nth_bit(i, p as nat) == b
}

/// A row index meets every literal constraint of the vector.
pub open spec fn bits_match(bits: Seq<Option<bool>>, i: nat) -> bool {
    forall|p: int| 0 <= p < bits.len() ==> bit_ok(#[trigger] bits[p], i, p)
}

/// How many positions carry a literal.
pub open spec fn literals(bits: Seq<Option<bool>>) -> nat
    decreases bits.len(),
{
    if bits.len() == 0 {
        0
    } else {
        literals(bits.drop_last()) + if bits.last() is Some {
            1nat
        } else {
            0nat
        }
    }
}

/// How many positions carry the literal `true`.
pub open spec fn ones(bits: Seq<Option<bool>>) -> nat
    decreases bits.len(),
{
    if bits.len() == 0 {
        0
    } else {
        ones(bits.drop_last()) + if bits.last() == Some(true) {
            1nat
        } else {
            0nat
        }
    }
}

/// A vector with no literal is matched by every row index.
proof fn lemma_no_literals_matches_all(bits: Seq<Option<bool>>, i: nat)
    requires
        literals(bits) == 0,
    ensures
        bits_match(bits, i),
    decreases bits.len(),
{
    if bits.len() > 0 {
        lemma_no_literals_matches_all(bits.drop_last(), i);
        assert forall|p: int| 0 <= p < bits.len() implies bit_ok(#[trigger] bits[p], i, p) by {
            if p < bits.len() - 1 {
                assert(bits.drop_last()[p] == bits[p]);
                assert(bit_ok(bits.drop_last()[p], i, p));
            }
        }
    }
}

/// A position with a literal, when one exists.
proof fn lemma_literal_position(bits: Seq<Option<bool>>)
    requires
        literals(bits) > 0,
    ensures
        exists|p: int| 0 <= p < bits.len() && (#[trigger] bits[p]) is Some,
    decreases bits.len(),
{
    if bits.last() is Some {
        assert(bits[bits.len() - 1] is Some);
    } else {
        lemma_literal_position(bits.drop_last());
        let p = choose|p: int| 0 <= p < bits.drop_last().len() && (#[trigger] bits.drop_last()[p]) is Some;
        assert(bits[p] is Some);
    }
}

/// Two literal vectors are combinable at position `q`: equal length, both
/// carry opposite literals at `q`, and every other position (literal or
/// don't-care) coincides.
pub open spec fn combinable_at(a: Seq<Option<bool>>, b: Seq<Option<bool>>, q: int) -> bool {
    &&& a.len() == b.len()
    &&& 0 <= q < a.len()
    &&& a[q] is Some
    &&& b[q] is Some
    &&& a[q] != b[q]
    &&& forall|p: int| 0 <= p < a.len() && p != q ==> a[p] == b[p]
}

/// Two literal vectors are combinable when they differ in exactly one
/// literal position; their don't-care positions coincide.
pub open spec fn combinable(a: Seq<Option<bool>>, b: Seq<Option<bool>>) -> bool {
    exists|q: int| combinable_at(a, b, q)
}

/// A minterm or implicant: a tri-state literal vector over the variable
/// positions, with the set of original minterm indices it covers.
#[derive(Debug)]
struct Minterm {
    /// `Some(b)` is a literal at that position, `None` a don't-care.
    bits: Vec<Option<bool>>,
    /// The original minterm indices this implicant covers, sorted.
    covered_minterms: Vec<u64>,
}

impl Minterm {
    /// The vector has one entry per variable, the covered indices are
    /// sorted row indices, and they are exactly the indices the vector
    /// matches.
    spec fn inv(&self, n: nat) -> bool {
        &&& self.bits@.len() == n
        &&& sorted_u64(self.covered_minterms@)
        &&& forall|j: int|
            0 <= j < self.covered_minterms@.len() ==> (#[trigger] self.covered_minterms@[j])
                < pow2(n)
        &&& forall|i: u64|
            i < pow2(n) ==> (self.covered_minterms@.contains(i) <==> bits_match(
                self.bits@,
                i as nat,
            ))
    }

    /// Every covered index belongs to the ON-set `on`.
    spec fn covered_in(&self, on: Seq<u64>) -> bool {
        forall|j: int|
            0 <= j < self.covered_minterms@.len() ==> on.contains(
                #[trigger] self.covered_minterms@[j],
            )
    }

    /// The seed implicant of one minterm: a fully specified vector covering
    /// the minterm itself only.
    fn new(minterm_index: u64, num_vars: usize) -> (r: Self)
        requires
            num_vars < 64,
            minterm_index < pow2(num_vars as nat),
        ensures
            r.inv(num_vars as nat),
            r.covered_minterms@ == seq![minterm_index],
            literals(r.bits@) == num_vars,
            ones(r.bits@) <= num_vars,
    {
        let mut bits: Vec<Option<bool>> = Vec::new();
        let mut p: usize = 0;
        while p < num_vars
            invariant
                0 <= p <= num_vars < 64,
                bits@.len() == p,
                forall|k: int|
                    0 <= k < p ==> (#[trigger] bits@[k]) == Some(
                        nth_bit(minterm_index as nat, k as nat),
                    ),
                literals(bits@) == p,
                ones(bits@) <= p,
            decreases num_vars - p,
        {
            let ghost pre = bits@;
            bits.push(Some(get_bit(minterm_index, p)));
            proof {
                assert(bits@.drop_last() =~= pre);
            }
            p = p + 1;
        }
        let mut covered_minterms: Vec<u64> = Vec::new();
        covered_minterms.push(minterm_index);
        let r = Minterm { bits, covered_minterms };
        proof {
            assert(r.covered_minterms@ =~= seq![minterm_index]);
            assert forall|i: u64| i < pow2(num_vars as nat) implies (r.covered_minterms@.contains(
                i,
            ) <==> bits_match(r.bits@, i as nat)) by {
                if r.covered_minterms@.contains(i) {
                    assert(i == minterm_index);
                    assert forall|p2: int| 0 <= p2 < r.bits@.len() implies bit_ok(
                        #[trigger] r.bits@[p2],
                        i as nat,
                        p2,
                    ) by {}
                }
                if bits_match(r.bits@, i as nat) {
                    assert forall|q: nat| q < num_vars as nat implies nth_bit(i as nat, q)
                        == nth_bit(minterm_index as nat, q) by {
                        assert(bit_ok(r.bits@[q as int], i as nat, q as int));
                    }
                    lemma_bits_equal(i as nat, minterm_index as nat, num_vars as nat);
                    assert(r.covered_minterms@[0] == minterm_index);
                }
            }
        }
        r
    }

    /// Counts the `true` literals, the grouping key of the combining rounds.
    fn count_ones(&self) -> (r: usize)
        ensures
            r == ones(self.bits@),
            r <= self.bits@.len(),
    {
        let mut count: usize = 0;
        let mut p: usize = 0;
        while p < self.bits.len()
            invariant
                0 <= p <= self.bits@.len(),
                count == ones(self.bits@.take(p as int)),
                count <= p,
            decreases self.bits@.len() - p,
        {
            let here: bool = match self.bits[p] {
                Some(b) => b,
                None => false,
            };
            proof {
                assert(self.bits@.take(p as int + 1).drop_last() =~= self.bits@.take(p as int));
                assert(self.bits@.take(p as int + 1).last() == self.bits@[p as int]);
            }
            if here {
                count = count + 1;
            }
            p = p + 1;
        }
        proof {
            assert(self.bits@.take(self.bits@.len() as int) =~= self.bits@);
        }
        count
    }

    /// Copies the implicant.
    fn duplicate(&self) -> (r: Minterm)
        ensures
            r.bits@ == self.bits@,
            r.covered_minterms@ == self.covered_minterms@,
    {
        Minterm {
            bits: copy_bits_vec(&self.bits),
            covered_minterms: copy_u64_vec(&self.covered_minterms),
        }
    }

    /// Combines two implicants whose vectors differ in exactly one literal
    /// position: that position becomes a don't-care and the covered sets are
    /// joined.  Anything else refuses to combine.
    fn combine(&self, other: &Self) -> (r: Option<Minterm>)
        requires
            self.inv(self.bits@.len() as nat),
            other.inv(other.bits@.len() as nat),
        ensures
            match r {
                Some(c) => {
                    &&& self.bits@.len() == other.bits@.len()
                    &&& c.inv(self.bits@.len() as nat)
                    &&& forall|i: u64|
                        #[trigger] c.covered_minterms@.contains(i) <==> (
                        self.covered_minterms@.contains(i) || other.covered_minterms@.contains(i))
                    &&& literals(c.bits@) + 1 == literals(self.bits@)
                    &&& literals(self.bits@) == literals(other.bits@)
                    &&& exists|q: int|
                        combinable_at(self.bits@, other.bits@, q) && c.bits@ == self.bits@.update(
                            q,
                            None::<bool>,
                        )
                },
                None => !combinable(self.bits@, other.bits@),
            },
    {
        if self.bits.len() != other.bits.len() {
            proof {
                assert forall|q: int| !combinable_at(self.bits@, other.bits@, q) by {}
            }
            return None;
        }
        let n: usize = self.bits.len();
        let mut diff_count: usize = 0;
        let ghost mut diff_pos: int = -1;
        let mut combined_bits: Vec<Option<bool>> = Vec::new();
        let mut p: usize = 0;
        while p < n
            invariant
                self.bits@.len() == n,
                other.bits@.len() == n,
                0 <= p <= n,
                combined_bits@.len() == p,
                diff_count <= 1,
                (diff_count == 0) <==> (diff_pos == -1),
                diff_count == 1 ==> 0 <= diff_pos < p && combined_bits@[diff_pos] is None
                    && self.bits@[diff_pos] is Some && other.bits@[diff_pos] is Some
                    && self.bits@[diff_pos] != other.bits@[diff_pos],
                forall|k: int|
                    0 <= k < p && k != diff_pos ==> combined_bits@[k] == (#[trigger] self.bits@[k])
                        && self.bits@[k] == other.bits@[k],
                literals(combined_bits@) + diff_count == literals(self.bits@.take(p as int)),
                literals(self.bits@.take(p as int)) == literals(other.bits@.take(p as int)),
            decreases n - p,
        {
            let ghost pre = combined_bits@;
            let sb = self.bits[p];
            let ob = other.bits[p];
            proof {
                assert(self.bits@.take(p as int + 1).drop_last() =~= self.bits@.take(p as int));
                assert(other.bits@.take(p as int + 1).drop_last() =~= other.bits@.take(p as int));
                assert(self.bits@.take(p as int + 1).last() == self.bits@[p as int]);
                assert(other.bits@.take(p as int + 1).last() == other.bits@[p as int]);
            }
            match (sb, ob) {
                (Some(a), Some(b)) => {
                    if a == b {
                        combined_bits.push(Some(a));
                        proof {
                            assert(combined_bits@.drop_last() =~= pre);
                        }
                    } else {
                        diff_count = diff_count + 1;
                        if diff_count > 1 {
                            proof {
                                let dp = diff_pos;
                                assert forall|q: int| !combinable_at(
                                    self.bits@,
                                    other.bits@,
                                    q,
                                ) by {
                                    if combinable_at(self.bits@, other.bits@, q) {
                                        if q != p as int {
                                            assert(self.bits@[p as int] == other.bits@[p as int]);
                                        }
                                        if q != dp {
                                            assert(self.bits@[dp] == other.bits@[dp]);
                                        }
                                    }
                                }
                            }
                            return None;
                        }
                        combined_bits.push(None);
                        proof {
                            diff_pos = p as int;
                            assert(combined_bits@.drop_last() =~= pre);
                        }
                    }
                },
                (None, None) => {
                    combined_bits.push(None);
                    proof {
                        assert(combined_bits@.drop_last() =~= pre);
                    }
                },
                _ => {
                    proof {
                        assert forall|q: int| !combinable_at(self.bits@, other.bits@, q) by {
                            if combinable_at(self.bits@, other.bits@, q) {
                                if q != p as int {
                                    assert(self.bits@[p as int] == other.bits@[p as int]);
                                }
                            }
                        }
                    }
                    return None;
                },
            }
            p = p + 1;
        }
        proof {
            assert(self.bits@.take(n as int) =~= self.bits@);
            assert(other.bits@.take(n as int) =~= other.bits@);
        }
        if diff_count == 1 {
            let mut covered_minterms = copy_u64_vec(&self.covered_minterms);
            let mut j: usize = 0;
            while j < other.covered_minterms.len()
                invariant
                    0 <= j <= other.covered_minterms@.len(),
                    sorted_u64(covered_minterms@),
                    sorted_u64(other.covered_minterms@),
                    forall|y: u64|
                        #[trigger] covered_minterms@.contains(y) <==> (
                        self.covered_minterms@.contains(y) || other.covered_minterms@.take(
                            j as int,
                        ).contains(y)),
                decreases other.covered_minterms@.len() - j,
            {
                insert_sorted_u64(&mut covered_minterms, other.covered_minterms[j]);
                proof {
                    assert forall|y: u64| #[trigger] other.covered_minterms@.take(j as int + 1).contains(
                        y,
                    ) implies (other.covered_minterms@.take(j as int).contains(y) || y
                        == other.covered_minterms@[j as int]) by {
                        let k = choose|k: int|
                            0 <= k < j + 1 && (#[trigger] other.covered_minterms@.take(
                                j as int + 1,
                            )[k]) == y;
                        if k < j as int {
                            assert(other.covered_minterms@.take(j as int)[k] == y);
                        }
                    }
                    assert forall|y: u64| (other.covered_minterms@.take(j as int).contains(y) || y
                        == other.covered_minterms@[j as int]) implies #[trigger] other.covered_minterms@.take(
                        j as int + 1,
                    ).contains(y) by {
                        if other.covered_minterms@.take(j as int).contains(y) {
                            let k = choose|k: int|
                                0 <= k < j && other.covered_minterms@.take(j as int)[k] == y;
                            assert(other.covered_minterms@.take(j as int + 1)[k] == y);
                        } else {
                            assert(other.covered_minterms@.take(j as int + 1)[j as int] == y);
                        }
                    }
                }
                j = j + 1;
            }
            proof {
                assert(other.covered_minterms@.take(other.covered_minterms@.len() as int)
                    =~= other.covered_minterms@);
            }
            let c = Minterm { bits: combined_bits, covered_minterms };
            proof {
                let nn = n as nat;
                let dp = diff_pos;
                assert(combinable_at(self.bits@, other.bits@, dp));
                assert(c.bits@ =~= self.bits@.update(dp, None::<bool>));
                // the match set of the combined vector is the union of the two
                assert forall|i: u64| i < pow2(nn) implies (c.covered_minterms@.contains(i)
                    <==> bits_match(c.bits@, i as nat)) by {
                    if bits_match(c.bits@, i as nat) {
                        // the row agrees with one of the two on the split position
                        if nth_bit(i as nat, dp as nat) == self.bits@[dp]->Some_0 {
                            assert(bits_match(self.bits@, i as nat)) by {
                                assert forall|k: int| 0 <= k < nn implies bit_ok(
                                    #[trigger] self.bits@[k],
                                    i as nat,
                                    k,
                                ) by {
                                    if k != dp {
                                        assert(bit_ok(c.bits@[k], i as nat, k));
                                    }
                                }
                            }
                        } else {
                            assert(bits_match(other.bits@, i as nat)) by {
                                assert forall|k: int| 0 <= k < nn implies bit_ok(
                                    #[trigger] other.bits@[k],
                                    i as nat,
                                    k,
                                ) by {
                                    if k != dp {
                                        assert(bit_ok(c.bits@[k], i as nat, k));
                                        assert(c.bits@[k] == self.bits@[k]);
                                        assert(other.bits@[k] == c.bits@[k]);
                                    } else {
                                        let a = self.bits@[dp]->Some_0;
                                        let b = other.bits@[dp]->Some_0;
                                        assert(a != b);
                                        assert(nth_bit(i as nat, dp as nat) == b);
                                    }
                                }
                            }
                        }
                    }
                    if self.covered_minterms@.contains(i) {
                        assert(bits_match(self.bits@, i as nat));
                        assert forall|k: int| 0 <= k < nn implies bit_ok(
                            #[trigger] c.bits@[k],
                            i as nat,
                            k,
                        ) by {
                            if k != dp {
                                assert(bit_ok(self.bits@[k], i as nat, k));
                            }
                        }
                    }
                    if other.covered_minterms@.contains(i) {
                        assert(bits_match(other.bits@, i as nat));
                        assert forall|k: int| 0 <= k < nn implies bit_ok(
                            #[trigger] c.bits@[k],
                            i as nat,
                            k,
                        ) by {
                            if k != dp {
                                assert(bit_ok(other.bits@[k], i as nat, k));
                                assert(c.bits@[k] == self.bits@[k]);
                                assert(c.bits@[k] == other.bits@[k]);
                            }
                        }
                    }
                }
                // every covered index is in range
                assert forall|j2: int| 0 <= j2 < c.covered_minterms@.len() implies (
                #[trigger] c.covered_minterms@[j2]) < pow2(nn) by {
                    assert(c.covered_minterms@.contains(c.covered_minterms@[j2]));
                }
            }
            Some(c)
        } else {
            proof {
                assert forall|q: int| !combinable_at(self.bits@, other.bits@, q) by {
                    if combinable_at(self.bits@, other.bits@, q) {
                        assert(self.bits@[q] == other.bits@[q]);
                    }
                }
            }
            None
        }
    }
}

/// The constraints of a literal vector, read through an assignment: each
/// literal position demands its value of the variable at that position.
pub open spec fn term_holds(
    bits: Seq<Option<bool>>,
    vars: Seq<Seq<char>>,
    m: Map<Seq<char>, bool>,
) -> bool {
    forall|p: int|
        0 <= p < bits.len() ==> ((#[trigger] bits[p]) matches Some(b) ==> lookup(m, vars[p]) == b)
}

/// Extending the prefix by one position adds that position's constraint.
proof fn lemma_term_holds_step(
    bits: Seq<Option<bool>>,
    vars: Seq<Seq<char>>,
    m: Map<Seq<char>, bool>,
    p: int,
)
    requires
        0 <= p < bits.len(),
    ensures
        term_holds(bits.take(p + 1), vars, m) == (term_holds(bits.take(p), vars, m) && (
        bits[p] matches Some(b) ==> lookup(m, vars[p]) == b)),
{
    let t1 = bits.take(p + 1);
    let t0 = bits.take(p);
    if term_holds(t1, vars, m) {
        assert forall|k: int| 0 <= k < t0.len() implies ((#[trigger] t0[k]) matches Some(b)
            ==> lookup(m, vars[k]) == b) by {
            assert(t1[k] == t0[k]);
        }
        assert(t1[p] == bits[p]);
    }
    if term_holds(t0, vars, m) && (bits[p] matches Some(b) ==> lookup(m, vars[p]) == b) {
        assert forall|k: int| 0 <= k < t1.len() implies ((#[trigger] t1[k]) matches Some(b)
            ==> lookup(m, vars[k]) == b) by {
            if k < p {
                assert(t1[k] == t0[k]);
                assert(t0[k] matches Some(b) ==> lookup(m, vars[k]) == b);
            } else {
                assert(t1[k] == bits[p]);
            }
        }
    }
}

impl Minterm {
    /// Rebuilds the implicant as a conjunction of literals: `Some(true)`
    /// becomes the variable, `Some(false)` its negation, don't-cares are
    /// omitted.  A vector with no literal yields nothing.
    fn to_expression(&self, variables: &Variables) -> (r: Option<Expr>)
        requires
            variables.wf(),
            self.bits@.len() == variables@.len(),
        ensures
            match r {
                Some(t) => {
                    &&& literals(self.bits@) > 0
                    &&& is_product(t, variables.as_set())
                    &&& forall|m: Map<Seq<char>, bool>|
                        eval_expr(t, m) == term_holds(self.bits@, variables@, m)
                    &&& forall|v: Seq<char>| expr_vars(t).contains(v) ==> variables@.contains(v)
                },
                None => literals(self.bits@) == 0,
            },
    {
        let mut result: Option<Expr> = None;
        let mut p: usize = 0;
        while p < self.bits.len()
            invariant
                variables.wf(),
                self.bits@.len() == variables@.len(),
                0 <= p <= self.bits@.len(),
                match result {
                    Some(acc) => {
                        &&& literals(self.bits@.take(p as int)) > 0
                        &&& is_product(acc, variables.as_set())
                        &&& forall|m: Map<Seq<char>, bool>|
                            eval_expr(acc, m) == term_holds(
                                self.bits@.take(p as int),
                                variables@,
                                m,
                            )
                        &&& forall|v: Seq<char>|
                            expr_vars(acc).contains(v) ==> variables@.contains(v)
                    },
                    None => literals(self.bits@.take(p as int)) == 0,
                },
            decreases self.bits@.len() - p,
        {
            proof {
                assert(self.bits@.take(p as int + 1).drop_last() =~= self.bits@.take(p as int));
                assert(self.bits@.take(p as int + 1).last() == self.bits@[p as int]);
            }
            match self.bits[p] {
                Some(b) => {
                    let name: String = variables.name_at(p).clone();
                    proof {
                        assert(name@ == variables@[p as int]);
                        assert(variables@.contains(variables@[p as int]));
                    }
                    let lit: Expr = if b {
                        Expr::Identifier(name)
                    } else {
                        Expr::Not(Box::new(Expr::Identifier(name)))
                    };
                    proof {
                        assert forall|m: Map<Seq<char>, bool>| eval_expr(lit, m) == (lookup(
                            m,
                            variables@[p as int],
                        ) == b) by {
                            reveal_with_fuel(eval_expr, 3);
                        }
                        assert(expr_vars(lit) == Set::empty().insert(name@)) by {
                            reveal_with_fuel(expr_vars, 3);
                            assert(expr_vars(lit) =~= Set::empty().insert(name@));
                        }
                        assert(variables.as_set().contains(name@));
                        assert(is_literal(lit, variables.as_set()));
                    }
                    let prev = result;
                    let next: Expr = match prev {
                        None => lit,
                        Some(acc) => Expr::And(Box::new(acc), Box::new(lit)),
                    };
                    proof {
                        assert forall|m: Map<Seq<char>, bool>| eval_expr(next, m) == term_holds(
                            self.bits@.take(p as int + 1),
                            variables@,
                            m,
                        ) by {
                            reveal_with_fuel(eval_expr, 2);
                            lemma_term_holds_step(self.bits@, variables@, m, p as int);
                            if prev is None {
                                assert forall|k: int|
                                    0 <= k < p implies !((#[trigger] self.bits@.take(
                                    p as int,
                                )[k]) is Some) by {
                                    lemma_no_literal_none(self.bits@.take(p as int), k);
                                }
                                assert(term_holds(self.bits@.take(p as int), variables@, m));
                                assert(eval_expr(next, m) == (lookup(m, variables@[p as int])
                                    == b));
                            } else {
                                let acc = prev->Some_0;
                                assert(next == Expr::And(Box::new(acc), Box::new(lit)));
                                assert(eval_expr(next, m) == (eval_expr(acc, m) && eval_expr(
                                    lit,
                                    m,
                                )));
                                assert(eval_expr(acc, m) == term_holds(
                                    self.bits@.take(p as int),
                                    variables@,
                                    m,
                                ));
                            }
                        }
                    }
                    result = Some(next);
                },
                None => {
                    proof {
                        if result is Some {
                            let ghost acc = result->Some_0;
                            assert forall|m: Map<Seq<char>, bool>| eval_expr(acc, m)
                                == term_holds(self.bits@.take(p as int + 1), variables@, m) by {
                                lemma_term_holds_step(self.bits@, variables@, m, p as int);
                            }
                        }
                    }
                },
            }
            p = p + 1;
        }
        proof {
            assert(self.bits@.take(self.bits@.len() as int) =~= self.bits@);
        }
        result
    }
}

/// In a vector with no literal, every position is a don't-care.
proof fn lemma_no_literal_none(bits: Seq<Option<bool>>, k: int)
    requires
        literals(bits) == 0,
        0 <= k < bits.len(),
    ensures
        !(bits[k] is Some),
    decreases bits.len(),
{
    if k == bits.len() - 1 {
    } else {
        lemma_no_literal_none(bits.drop_last(), k);
        assert(bits.drop_last()[k] == bits[k]);
    }
}

/// Quine-McCluskey over the ON-set of an expression: `variables` in the
/// canonical sorted order, `minterms` the sorted row indices on which the
/// expression is true.
pub struct QuineMcCluskey {
    pub variables: Variables,
    pub minterms: Vec<u64>,
}

impl QuineMcCluskey {
    /// Sorted validated variables within the cap, and sorted in-range
    /// minterm indices.
    pub open spec fn wf(&self) -> bool {
        &&& self.variables.wf()
        &&& self.variables@.len() <= MAX_VARIABLES
        &&& sorted_u64(self.minterms@)
        &&& forall|j: int|
            0 <= j < self.minterms@.len() ==> (#[trigger] self.minterms@[j]) < pow2(
                self.variables@.len() as nat,
            )
    }

    /// The minterms are exactly the rows on which `e` is true.
    pub open spec fn on_set_of(&self, e: Expr) -> bool {
        forall|i: u64|
            i < pow2(self.variables@.len() as nat) ==> ((#[trigger] self.minterms@.contains(i))
                <==> eval_expr(e, map_of_row(self.variables@, i as nat)))
    }

    /// Builds the minimizer state for an expression: validates its
    /// variables and enumerates its ON-set in canonical row order.
    pub fn from_expression(expr: &Expr) -> (r: Result<QuineMcCluskey, EvaluationError>)
        ensures
            match r {
                Ok(qm) => {
                    &&& qm.wf()
                    &&& collect_vars(*expr) is Ok
                    &&& qm.variables.as_set() == expr_vars(*expr)
                    &&& qm.on_set_of(*expr)
                },
                Err(e) => collect_vars(*expr) is Err && matches_collect_err(
                    collect_vars(*expr),
                    e,
                ),
            },
    {
        let variables = match Variables::from_expr(expr) {
            Ok(v) => v,
            Err(e) => {
                return Err(e);
            },
        };
        let num_vars: usize = variables.len();
        let count: u64 = pow2_u64(num_vars);
        let mut minterms: Vec<u64> = Vec::new();
        let mut i: u64 = 0;
        while i < count
            invariant
                variables.wf(),
                variables@.len() == num_vars <= MAX_VARIABLES,
                count == pow2(num_vars as nat),
                0 <= i <= count,
                sorted_u64(minterms@),
                forall|k: int| 0 <= k < minterms@.len() ==> (#[trigger] minterms@[k]) < i,
                forall|j: u64|
                    j < i ==> ((#[trigger] minterms@.contains(j)) <==> eval_expr(
                        *expr,
                        map_of_row(variables@, j as nat),
                    )),
            decreases count - i,
        {
            let assignments = row_assignment(&variables, i);
            let truth = evaluate_expression(expr, &assignments);
            if truth {
                let ghost pre = minterms@;
                minterms.push(i);
                proof {
                    broadcast use vstd::seq_lib::group_seq_properties;

                    assert forall|j: u64| j < i + 1 implies ((#[trigger] minterms@.contains(j))
                        <==> eval_expr(*expr, map_of_row(variables@, j as nat))) by {
                        if j < i {
                            assert(pre.contains(j) <==> eval_expr(
                                *expr,
                                map_of_row(variables@, j as nat),
                            ));
                            if minterms@.contains(j) && !pre.contains(j) {
                                let k = choose|k: int|
                                    0 <= k < minterms@.len() && minterms@[k] == j;
                                assert(k == minterms@.len() - 1);
                            }
                        } else {
                            assert(minterms@[minterms@.len() - 1] == i);
                        }
                    }
                }
            } else {
                proof {
                    assert forall|j: u64| j < i + 1 implies ((#[trigger] minterms@.contains(j))
                        <==> eval_expr(*expr, map_of_row(variables@, j as nat))) by {
                        if j == i {
                            if minterms@.contains(j) {
                                let k = choose|k: int|
                                    0 <= k < minterms@.len() && minterms@[k] == j;
                            }
                        }
                    }
                }
            }
            i = i + 1;
        }
        Ok(QuineMcCluskey { variables, minterms })
    }
}

/// Every implicant of the sequence is well formed over `n` variables and
/// covers only rows of the ON-set `on`.
spec fn all_wf(s: Seq<Minterm>, n: nat, on: Seq<u64>) -> bool {
    forall|k: int| 0 <= k < s.len() ==> (#[trigger] s[k]).inv(n) && s[k].covered_in(on)
}

/// Some implicant of the sequence covers row `i`.
spec fn covered_by_some(s: Seq<Minterm>, i: u64) -> bool {
    exists|k: int| 0 <= k < s.len() && (#[trigger] s[k]).covered_minterms@.contains(i)
}

/// Whatever `a` covers, `b` covers.
spec fn subset_covered(a: Minterm, b: Minterm) -> bool {
    forall|i: u64|
        #[trigger] a.covered_minterms@.contains(i) ==> b.covered_minterms@.contains(i)
}

/// Implicants with the same literal vector cover the same rows.
proof fn lemma_same_bits_same_covered(a: Minterm, b: Minterm, n: nat)
    requires
        a.inv(n),
        b.inv(n),
        a.bits@ == b.bits@,
    ensures
        subset_covered(a, b),
        subset_covered(b, a),
{
    assert forall|i: u64| #[trigger] a.covered_minterms@.contains(i) implies b.covered_minterms@.contains(
        i,
    ) by {
        let k = choose|k: int| 0 <= k < a.covered_minterms@.len() && a.covered_minterms@[k] == i;
        assert(a.covered_minterms@[k] < pow2(n));
        assert(bits_match(a.bits@, i as nat));
    }
    assert forall|i: u64| #[trigger] b.covered_minterms@.contains(i) implies a.covered_minterms@.contains(
        i,
    ) by {
        let k = choose|k: int| 0 <= k < b.covered_minterms@.len() && b.covered_minterms@[k] == i;
        assert(b.covered_minterms@[k] < pow2(n));
        assert(bits_match(b.bits@, i as nat));
    }
}

/// No two implicants of the sequence are combinable: each is prime
/// relative to the others.
spec fn no_pair_combinable(s: Seq<Minterm>) -> bool {
    forall|j: int, k: int|
        0 <= j < s.len() && 0 <= k < s.len() && j != k ==> !combinable(
            (#[trigger] s[j]).bits@,
            (#[trigger] s[k]).bits@,
        )
}

/// Every row these implicants cover was already covered by the pool `orig`.
spec fn covers_within(s: Seq<Minterm>, orig: Seq<Minterm>) -> bool {
    forall|k: int, i: u64|
        0 <= k < s.len() && #[trigger] s[k].covered_minterms@.contains(i) ==> covered_by_some(
            orig,
            i,
        )
}

/// Combinable vectors hold the same number of literals, and their
/// `true`-literal counts differ by exactly one.
proof fn lemma_combinable_counts(a: Seq<Option<bool>>, b: Seq<Option<bool>>, q: int)
    requires
        combinable_at(a, b, q),
    ensures
        literals(a) == literals(b),
        (ones(a) + 1 == ones(b)) || (ones(b) + 1 == ones(a)),
    decreases a.len(),
{
    if q == a.len() - 1 {
        assert(a.drop_last() =~= b.drop_last());
        assert(ones(a) == ones(a.drop_last()) + if a.last() == Some(true) {
            1nat
        } else {
            0nat
        });
        assert(ones(b) == ones(b.drop_last()) + if b.last() == Some(true) {
            1nat
        } else {
            0nat
        });
        assert(literals(a) == literals(a.drop_last()) + 1);
        assert(literals(b) == literals(b.drop_last()) + 1);
        if a.last() == Some(true) {
            assert(b.last() == Some(false));
        } else {
            assert(a.last() == Some(false));
            assert(b.last() == Some(true));
        }
    } else {
        assert(combinable_at(a.drop_last(), b.drop_last(), q)) by {
            assert forall|p: int|
                0 <= p < a.len() - 1 && p != q implies a.drop_last()[p] == b.drop_last()[p] by {
                assert(a[p] == b[p]);
            }
        }
        lemma_combinable_counts(a.drop_last(), b.drop_last(), q);
        assert(a.last() == b.last());
        assert(ones(a) == ones(a.drop_last()) + if a.last() == Some(true) {
            1nat
        } else {
            0nat
        });
        assert(ones(b) == ones(b.drop_last()) + if b.last() == Some(true) {
            1nat
        } else {
            0nat
        });
    }
}

/// The implicant's vector is that of a still-unused entry of `cur`.
spec fn unused_source(m: Minterm, cur: Seq<Minterm>, used: Seq<bool>) -> bool {
    exists|k2: int| 0 <= k2 < used.len() && !used[k2] && m.bits@ == (#[trigger] cur[k2]).bits@
}

/// Whether the ordered pair has been handled: a combinable pair whose
/// `true`-counts are adjacent in this order carries both used marks.
spec fn marked_pair(cur: Seq<Minterm>, used: Seq<bool>, k1: int, k2: int) -> bool {
    (combinable(cur[k1].bits@, cur[k2].bits@) && ones(cur[k1].bits@) + 1 == ones(cur[k2].bits@))
        ==> (used[k1] && used[k2])
}

/// Compares two literal vectors.
fn bits_eq(a: &Vec<Option<bool>>, b: &Vec<Option<bool>>) -> (r: bool)
    ensures
        r == (a@ == b@),
{
    if a.len() != b.len() {
        return false;
    }
    let mut i: usize = 0;
    while i < a.len()
        invariant
            0 <= i <= a@.len(),
            a@.len() == b@.len(),
            forall|k: int| 0 <= k < i ==> a@[k] == b@[k],
        decreases a@.len() - i,
    {
        let same: bool = match (a[i], b[i]) {
            (Some(x), Some(y)) => x == y,
            (None, None) => true,
            _ => false,
        };
        if !same {
            return false;
        }
        i = i + 1;
    }
    proof {
        assert(a@ =~= b@);
    }
    true
}

/// Finds an implicant with the given literal vector, if one is present.
fn find_same_bits(v: &Vec<Minterm>, c: &Minterm) -> (r: Option<usize>)
    ensures
        match r {
            Some(j) => j < v@.len() && v@[j as int].bits@ == c.bits@,
            None => true,
        },
{
    let mut j: usize = 0;
    while j < v.len()
        invariant
            0 <= j <= v@.len(),
        decreases v@.len() - j,
    {
        if bits_eq(&v[j].bits, &c.bits) {
            return Some(j);
        }
        j = j + 1;
    }
    None
}

impl QuineMcCluskey {
    /// Finds all prime implicants by iterative pairwise combining: in each
    /// round, implicants whose `true`-counts are adjacent are combined where
    /// possible; an implicant never combined in its round is prime.  The
    /// primes keep covering every row the seeds covered, cover nothing the
    /// seeds did not, and no two of them are combinable.
    fn find_prime_implicants(&self, current_implicants: Vec<Minterm>) -> (r: Vec<Minterm>)
        requires
            self.wf(),
            all_wf(current_implicants@, self.variables@.len() as nat, self.minterms@),
            forall|k: int|
                0 <= k < current_implicants@.len() ==> literals(
                    (#[trigger] current_implicants@[k]).bits@,
                ) == self.variables@.len(),
        ensures
            all_wf(r@, self.variables@.len() as nat, self.minterms@),
            forall|i: u64|
                covered_by_some(current_implicants@, i) ==> covered_by_some(r@, i),
            no_pair_combinable(r@),
            covers_within(r@, current_implicants@),
    {
        let ghost n = self.variables@.len() as nat;
        let ghost on = self.minterms@;
        let ghost orig = current_implicants@;
        let mut current = current_implicants;
        let mut prime_implicants: Vec<Minterm> = Vec::new();
        let ghost mut lit_count: nat = n;
        proof {
            assert forall|i: u64| covered_by_some(orig, i) implies covered_by_some(current@, i)
                || covered_by_some(prime_implicants@, i) by {}
            assert forall|k: int, i: u64|
                0 <= k < current@.len() && #[trigger] current@[k].covered_minterms@.contains(
                    i,
                ) implies covered_by_some(orig, i) by {
                assert(orig[k].covered_minterms@.contains(i));
            }
        }
        while current.len() > 0
            invariant
                self.wf(),
                n == self.variables@.len(),
                on == self.minterms@,
                all_wf(current@, n, on),
                all_wf(prime_implicants@, n, on),
                forall|k: int|
                    0 <= k < current@.len() ==> literals((#[trigger] current@[k]).bits@)
                        == lit_count,
                forall|i: u64|
                    covered_by_some(orig, i) ==> covered_by_some(current@, i) || covered_by_some(
                        prime_implicants@,
                        i,
                    ),
                covers_within(current@, orig),
                covers_within(prime_implicants@, orig),
                no_pair_combinable(prime_implicants@),
                forall|j: int|
                    0 <= j < prime_implicants@.len() ==> literals(
                        (#[trigger] prime_implicants@[j]).bits@,
                    ) >= lit_count,
                current@.len() > 0 ==> forall|j: int|
                    0 <= j < prime_implicants@.len() ==> literals(
                        (#[trigger] prime_implicants@[j]).bits@,
                    ) > lit_count,
                lit_count <= n,
            decreases lit_count, current@.len(),
        {
            let cur_len: usize = current.len();
            let ghost cur = current@;
            let ghost primes0 = prime_implicants@;
            let mut next_implicants: Vec<Minterm> = Vec::new();
            let mut used: Vec<bool> = Vec::new();
            let mut z: usize = 0;
            while z < cur_len
                invariant
                    0 <= z <= cur_len,
                    used@.len() == z,
                    forall|k: int| 0 <= k < z ==> !(#[trigger] used@[k]),
                decreases cur_len - z,
            {
                used.push(false);
                z = z + 1;
            }

            // combine every pair from adjacent one-count groups
            let mut i1: usize = 0;
            while i1 < cur_len
                invariant
                    self.wf(),
                    n == self.variables@.len(),
                    on == self.minterms@,
                    current@ == cur,
                    cur_len == cur.len(),
                    used@.len() == cur_len,
                    all_wf(cur, n, on),
                    all_wf(next_implicants@, n, on),
                    0 <= i1 <= cur_len,
                    forall|k: int|
                        0 <= k < cur.len() ==> literals((#[trigger] cur[k]).bits@) == lit_count,
                    forall|k: int|
                        0 <= k < next_implicants@.len() ==> literals(
                            (#[trigger] next_implicants@[k]).bits@,
                        ) + 1 == lit_count,
                    forall|k: int|
                        0 <= k < cur_len && #[trigger] used@[k] ==> exists|j: int|
                            0 <= j < next_implicants@.len() && subset_covered(
                                cur[k],
                                #[trigger] next_implicants@[j],
                            ),
                    covers_within(cur, orig),
                    covers_within(next_implicants@, orig),
                    forall|k1: int, k2: int|
                        0 <= k1 < i1 && 0 <= k2 < cur_len ==> #[trigger] marked_pair(
                            cur,
                            used@,
                            k1,
                            k2,
                        ),
                decreases cur_len - i1,
            {
                let ones1: usize = current[i1].count_ones();
                let mut i2: usize = 0;
                while i2 < cur_len
                    invariant
                        self.wf(),
                        n == self.variables@.len(),
                        on == self.minterms@,
                        current@ == cur,
                        cur_len == cur.len(),
                        used@.len() == cur_len,
                        all_wf(cur, n, on),
                        all_wf(next_implicants@, n, on),
                        0 <= i1 < cur_len,
                        0 <= i2 <= cur_len,
                        ones1 == ones(cur[i1 as int].bits@),
                        forall|k: int|
                            0 <= k < cur.len() ==> literals((#[trigger] cur[k]).bits@)
                                == lit_count,
                        forall|k: int|
                            0 <= k < next_implicants@.len() ==> literals(
                                (#[trigger] next_implicants@[k]).bits@,
                            ) + 1 == lit_count,
                        forall|k: int|
                            0 <= k < cur_len && #[trigger] used@[k] ==> exists|j: int|
                                0 <= j < next_implicants@.len() && subset_covered(
                                    cur[k],
                                    #[trigger] next_implicants@[j],
                                ),
                        covers_within(cur, orig),
                        covers_within(next_implicants@, orig),
                        forall|k1: int, k2: int|
                            0 <= k1 < i1 && 0 <= k2 < cur_len ==> #[trigger] marked_pair(
                                cur,
                                used@,
                                k1,
                                k2,
                            ),
                        forall|k2: int|
                            0 <= k2 < i2 ==> #[trigger] marked_pair(cur, used@, i1 as int, k2),
                    decreases cur_len - i2,
                {
                    let ones2: usize = current[i2].count_ones();
                    if ones2 > 0 && ones1 == ones2 - 1 {
                        proof {
                            assert(cur[i1 as int].inv(n));
                            assert(cur[i2 as int].inv(n));
                        }
                        let combined = current[i1].combine(&current[i2]);
                        match combined {
                            Some(c) => {
                                proof {
                                    assert(cur[i1 as int].bits@.len() == n);
                                    assert(c.inv(n));
                                    assert forall|j: int|
                                        0 <= j < c.covered_minterms@.len() implies on.contains(
                                        #[trigger] c.covered_minterms@[j],
                                    ) by {
                                        let i = c.covered_minterms@[j];
                                        assert(c.covered_minterms@.contains(i));
                                        if cur[i1 as int].covered_minterms@.contains(i) {
                                            let kk = choose|kk: int|
                                                0 <= kk < cur[i1 as int].covered_minterms@.len()
                                                    && cur[i1 as int].covered_minterms@[kk] == i;
                                            assert(on.contains(
                                                cur[i1 as int].covered_minterms@[kk],
                                            ));
                                        } else {
                                            assert(cur[i2 as int].covered_minterms@.contains(i));
                                            let kk = choose|kk: int|
                                                0 <= kk < cur[i2 as int].covered_minterms@.len()
                                                    && cur[i2 as int].covered_minterms@[kk] == i;
                                            assert(on.contains(
                                                cur[i2 as int].covered_minterms@[kk],
                                            ));
                                        }
                                    }
                                    assert(c.covered_in(on));
                                }
                                let ghost next0 = next_implicants@;
                                let ghost ccov = c.covered_minterms@;
                                let keep: usize;
                                let existing = find_same_bits(&next_implicants, &c);
                                match existing {
                                    Some(j) => {
                                        keep = j;
                                        proof {
                                            lemma_same_bits_same_covered(
                                                c,
                                                next_implicants@[j as int],
                                                n,
                                            );
                                        }
                                    },
                                    None => {
                                        keep = next_implicants.len();
                                        next_implicants.push(c);
                                        proof {
                                            assert forall|k: int, i: u64|
                                                0 <= k < next_implicants@.len()
                                                    && #[trigger] next_implicants@[k].covered_minterms@.contains(
                                                    i,
                                                ) implies covered_by_some(orig, i) by {
                                                if k < next0.len() {
                                                    assert(next0[k].covered_minterms@.contains(
                                                        i,
                                                    ));
                                                } else {
                                                    assert(ccov.contains(i));
                                                    if cur[i1 as int].covered_minterms@.contains(
                                                        i,
                                                    ) {
                                                    } else {
                                                        assert(cur[i2 as int].covered_minterms@.contains(
                                                            i,
                                                        ));
                                                    }
                                                }
                                            }
                                        }
                                    },
                                }
                                let ghost used0 = used@;
                                used.set(i1, true);
                                used.set(i2, true);
                                proof {
                                    assert forall|k1: int, k2: int|
                                        0 <= k1 < cur_len && 0 <= k2 < cur_len && (k1 < i1 as int
                                            || (k1 == i1 as int && k2 < i2 + 1)) implies #[trigger] marked_pair(
                                        cur,
                                        used@,
                                        k1,
                                        k2,
                                    ) by {
                                        if k1 == i1 as int && k2 == i2 as int {
                                            assert(used@[k1] && used@[k2]);
                                        } else {
                                            if k1 < i1 as int {
                                                assert(marked_pair(cur, used0, k1, k2));
                                            } else {
                                                assert(marked_pair(cur, used0, k1, k2));
                                            }
                                            if combinable(cur[k1].bits@, cur[k2].bits@) && ones(
                                                cur[k1].bits@,
                                            ) + 1 == ones(cur[k2].bits@) {
                                                assert(used0[k1] && used0[k2]);
                                                assert(used@[k1] && used@[k2]);
                                            }
                                        }
                                    }
                                    let kj = keep as int;
                                    assert(subset_covered(cur[i1 as int], next_implicants@[kj]));
                                    assert(subset_covered(cur[i2 as int], next_implicants@[kj]));
                                    assert forall|k: int|
                                        0 <= k < cur_len && #[trigger] used@[k] implies exists|
                                        j: int,
                                    |
                                        0 <= j < next_implicants@.len() && subset_covered(
                                            cur[k],
                                            #[trigger] next_implicants@[j],
                                        ) by {
                                        if k == i1 as int || k == i2 as int {
                                            assert(subset_covered(cur[k], next_implicants@[kj]));
                                        } else {
                                            let j0 = choose|j0: int|
                                                0 <= j0 < next0.len() && subset_covered(
                                                    cur[k],
                                                    #[trigger] next0[j0],
                                                );
                                            assert(next_implicants@[j0] == next0[j0]);
                                        }
                                    }
                                }
                            },
                            None => {
                                proof {
                                    assert forall|k2: int|
                                        0 <= k2 < i2 + 1 implies #[trigger] marked_pair(
                                        cur,
                                        used@,
                                        i1 as int,
                                        k2,
                                    ) by {
                                        if k2 == i2 as int {
                                            assert(!combinable(
                                                cur[i1 as int].bits@,
                                                cur[i2 as int].bits@,
                                            ));
                                        }
                                    }
                                }
                            },
                        }
                    } else {
                        proof {
                            assert forall|k2: int|
                                0 <= k2 < i2 + 1 implies #[trigger] marked_pair(
                                cur,
                                used@,
                                i1 as int,
                                k2,
                            ) by {
                                if k2 == i2 as int {
                                    assert(ones2 == ones(cur[i2 as int].bits@));
                                    assert(!(ones(cur[i1 as int].bits@) + 1 == ones(
                                        cur[i2 as int].bits@,
                                    )));
                                }
                            }
                        }
                    }
                    i2 = i2 + 1;
                }
                i1 = i1 + 1;
            }

            proof {
                // every combinable pair of this round carries both used marks
                assert forall|k1: int, k2: int|
                    0 <= k1 < cur_len && 0 <= k2 < cur_len && k1 != k2 && combinable(
                        (#[trigger] cur[k1]).bits@,
                        (#[trigger] cur[k2]).bits@,
                    ) implies used@[k1] && used@[k2] by {
                    let q = choose|q: int| combinable_at(cur[k1].bits@, cur[k2].bits@, q);
                    lemma_combinable_counts(cur[k1].bits@, cur[k2].bits@, q);
                    if ones(cur[k1].bits@) + 1 == ones(cur[k2].bits@) {
                        assert(marked_pair(cur, used@, k1, k2));
                    } else {
                        assert(combinable_at(cur[k2].bits@, cur[k1].bits@, q));
                        assert(combinable(cur[k2].bits@, cur[k1].bits@));
                        assert(marked_pair(cur, used@, k2, k1));
                    }
                }
            }

            // implicants never combined this round are prime
            let ghost primes0_len = prime_implicants@.len();
            let mut k: usize = 0;
            while k < cur_len
                invariant
                    self.wf(),
                    n == self.variables@.len(),
                    on == self.minterms@,
                    current@ == cur,
                    cur_len == cur.len(),
                    used@.len() == cur_len,
                    all_wf(cur, n, on),
                    all_wf(next_implicants@, n, on),
                    all_wf(prime_implicants@, n, on),
                    0 <= k <= cur_len,
                    forall|kk: int|
                        0 <= kk < cur_len && #[trigger] used@[kk] ==> exists|j: int|
                            0 <= j < next_implicants@.len() && subset_covered(
                                cur[kk],
                                #[trigger] next_implicants@[j],
                            ),
                    forall|kk: int|
                        0 <= kk < k && !(#[trigger] used@[kk]) ==> exists|j: int|
                            0 <= j < prime_implicants@.len() && subset_covered(
                                cur[kk],
                                #[trigger] prime_implicants@[j],
                            ),
                    forall|i: u64|
                        covered_by_some(orig, i) ==> covered_by_some(cur, i) || covered_by_some(
                            prime_implicants@,
                            i,
                        ),
                    forall|kk: int|
                        0 <= kk < next_implicants@.len() ==> literals(
                            (#[trigger] next_implicants@[kk]).bits@,
                        ) + 1 == lit_count,
                    covers_within(cur, orig),
                    covers_within(next_implicants@, orig),
                    covers_within(prime_implicants@, orig),
                    no_pair_combinable(prime_implicants@),
                    forall|k: int|
                        0 <= k < cur.len() ==> literals((#[trigger] cur[k]).bits@) == lit_count,
                    forall|k1: int, k2: int|
                        0 <= k1 < cur_len && 0 <= k2 < cur_len && k1 != k2 && combinable(
                            (#[trigger] cur[k1]).bits@,
                            (#[trigger] cur[k2]).bits@,
                        ) ==> used@[k1] && used@[k2],
                    primes0_len == primes0.len(),
                    primes0_len <= prime_implicants@.len(),
                    forall|j: int|
                        0 <= j < primes0_len ==> (#[trigger] prime_implicants@[j]) == primes0[j],
                    forall|j: int|
                        0 <= j < primes0_len ==> literals((#[trigger] primes0[j]).bits@)
                            > lit_count,
                    forall|j: int|
                        primes0_len <= j < prime_implicants@.len() ==> #[trigger] unused_source(
                            prime_implicants@[j],
                            cur,
                            used@,
                        ),
                    forall|j: int|
                        0 <= j < prime_implicants@.len() ==> literals(
                            (#[trigger] prime_implicants@[j]).bits@,
                        ) >= lit_count,
                decreases cur_len - k,
            {
                if !used[k] {
                    let ghost primes_pre = prime_implicants@;
                    prime_implicants.push(current[k].duplicate());
                    proof {
                        let last = prime_implicants@.len() - 1;
                        assert(prime_implicants@[last].bits@ == cur[k as int].bits@);
                        assert(prime_implicants@[last].covered_minterms@ == cur[k as int].covered_minterms@);
                        assert(subset_covered(cur[k as int], prime_implicants@[last]));
                        assert forall|kk: int|
                            0 <= kk < k + 1 && !(#[trigger] used@[kk]) implies exists|j: int|
                            0 <= j < prime_implicants@.len() && subset_covered(
                                cur[kk],
                                #[trigger] prime_implicants@[j],
                            ) by {
                            if kk < k as int {
                                let j0 = choose|j0: int|
                                    0 <= j0 < primes_pre.len() && subset_covered(
                                        cur[kk],
                                        #[trigger] primes_pre[j0],
                                    );
                                assert(prime_implicants@[j0] == primes_pre[j0]);
                            } else {
                                assert(subset_covered(cur[kk], prime_implicants@[last]));
                            }
                        }
                        assert forall|i: u64| covered_by_some(orig, i) implies covered_by_some(
                            cur,
                            i,
                        ) || covered_by_some(prime_implicants@, i) by {
                            if covered_by_some(primes_pre, i) {
                                let j0 = choose|j0: int|
                                    0 <= j0 < primes_pre.len() && (#[trigger] primes_pre[j0]).covered_minterms@.contains(
                                        i,
                                    );
                                assert(prime_implicants@[j0].covered_minterms@.contains(i));
                            }
                        }
                        // the new prime covers only rows the pool covered
                        assert forall|j2: int, i: u64|
                            0 <= j2 < prime_implicants@.len()
                                && #[trigger] prime_implicants@[j2].covered_minterms@.contains(
                                i,
                            ) implies covered_by_some(orig, i) by {
                            if j2 < last {
                                assert(primes_pre[j2].covered_minterms@.contains(i));
                            } else {
                                assert(cur[k as int].covered_minterms@.contains(i));
                            }
                        }
                        // bookkeeping: earlier entries are unchanged and the
                        // new one stems from a still-unused entry
                        assert forall|j2: int|
                            primes0_len <= j2 < prime_implicants@.len() implies #[trigger] unused_source(
                            prime_implicants@[j2],
                            cur,
                            used@,
                        ) by {
                            if j2 < last {
                                assert(prime_implicants@[j2] == primes_pre[j2]);
                                assert(unused_source(primes_pre[j2], cur, used@));
                            } else {
                                assert((k as int) < used@.len() && !used@[k as int]
                                    && prime_implicants@[last].bits@ == cur[k as int].bits@);
                            }
                        }
                        assert(literals(prime_implicants@[last].bits@) == lit_count);
                        // the new prime combines with no other prime: an old
                        // one has strictly more literals, and another unused
                        // implicant of this round would have been combined
                        assert forall|j2: int, k2: int|
                            0 <= j2 < prime_implicants@.len() && 0 <= k2
                                < prime_implicants@.len() && j2 != k2 implies !combinable(
                            (#[trigger] prime_implicants@[j2]).bits@,
                            (#[trigger] prime_implicants@[k2]).bits@,
                        ) by {
                            if j2 < last && k2 < last {
                                assert(prime_implicants@[j2] == primes_pre[j2]);
                                assert(prime_implicants@[k2] == primes_pre[k2]);
                                assert(!combinable(primes_pre[j2].bits@, primes_pre[k2].bits@));
                            } else {
                                let o: int = if j2 == last {
                                    k2
                                } else {
                                    j2
                                };
                                let a = prime_implicants@[j2].bits@;
                                let b = prime_implicants@[k2].bits@;
                                if combinable(a, b) {
                                    let q = choose|q: int| combinable_at(a, b, q);
                                    lemma_combinable_counts(a, b, q);
                                    if o < primes0_len {
                                        assert(prime_implicants@[o] == primes_pre[o]);
                                        assert(primes_pre[o] == primes0[o]);
                                        assert(literals(primes0[o].bits@) > lit_count);
                                        assert(false);
                                    } else {
                                        assert(prime_implicants@[o] == primes_pre[o]);
                                        assert(unused_source(primes_pre[o], cur, used@));
                                        let ko = choose|ko: int|
                                            0 <= ko < used@.len() && !used@[ko]
                                                && primes_pre[o].bits@ == (
                                            #[trigger] cur[ko]).bits@;
                                        let cj: int = if j2 == last {
                                            k as int
                                        } else {
                                            ko
                                        };
                                        let ck: int = if k2 == last {
                                            k as int
                                        } else {
                                            ko
                                        };
                                        assert(a == cur[cj].bits@ && b == cur[ck].bits@);
                                        if ko == k as int {
                                            assert(a == b);
                                            assert(a[q] != b[q]);
                                            assert(false);
                                        } else {
                                            assert(combinable(cur[cj].bits@, cur[ck].bits@));
                                            assert(used@[cj] && used@[ck]);
                                            assert(used@[k as int]);
                                            assert(false);
                                        }
                                    }
                                }
                            }
                        }
                    }
                }
                k = k + 1;
            }

            let ghost next_view = next_implicants@;
            current = next_implicants;
            proof {
                // every row covered before the round is covered after it
                assert forall|i: u64| covered_by_some(orig, i) implies covered_by_some(
                    current@,
                    i,
                ) || covered_by_some(prime_implicants@, i) by {
                    if covered_by_some(cur, i) && !covered_by_some(prime_implicants@, i) {
                        let kk = choose|kk: int|
                            0 <= kk < cur.len() && (#[trigger] cur[kk]).covered_minterms@.contains(
                                i,
                            );
                        if used@[kk] {
                            let j = choose|j: int|
                                0 <= j < next_view.len() && subset_covered(
                                    cur[kk],
                                    #[trigger] next_view[j],
                                );
                            assert(current@[j].covered_minterms@.contains(i));
                        } else {
                            let j = choose|j: int|
                                0 <= j < prime_implicants@.len() && subset_covered(
                                    cur[kk],
                                    #[trigger] prime_implicants@[j],
                                );
                            assert(prime_implicants@[j].covered_minterms@.contains(i));
                        }
                    }
                }
                if current@.len() > 0 {
                    assert(literals(current@[0].bits@) + 1 == lit_count);
                    lit_count = (lit_count - 1) as nat;
                    assert forall|j: int| 0 <= j < prime_implicants@.len() implies literals(
                        (#[trigger] prime_implicants@[j]).bits@,
                    ) > lit_count by {}
                }
            }
        }
        prime_implicants
    }
}

/// The two implicants are the same: equal vectors and equal covered rows.
spec fn same_implicant(a: Minterm, b: Minterm) -> bool {
    a.bits@ == b.bits@ && a.covered_minterms@ == b.covered_minterms@
}

/// The implicant equals one of the pool.
spec fn in_pool(m: Minterm, pool: Seq<Minterm>) -> bool {
    exists|j: int| 0 <= j < pool.len() && same_implicant(m, #[trigger] pool[j])
}

/// Every implicant of `s` equals one of the pool.
spec fn from_pool(s: Seq<Minterm>, pool: Seq<Minterm>) -> bool {
    forall|k: int| 0 <= k < s.len() ==> #[trigger] in_pool(s[k], pool)
}

/// The implicant at position `k` covers an ON-row that none of the earlier
/// positions covers.
spec fn covers_new_row(s: Seq<Minterm>, k: int, on: Seq<u64>) -> bool {
    exists|i: u64|
        on.contains(i) && #[trigger] s[k].covered_minterms@.contains(i) && !covered_by_some(
            s.take(k),
            i,
        )
}

/// Each implicant of the selection covers an ON-row that none of the
/// selections before it covers: no selection is redundant when made.
spec fn adds_coverage(s: Seq<Minterm>, on: Seq<u64>) -> bool {
    forall|k: int| 0 <= k < s.len() ==> #[trigger] covers_new_row(s, k, on)
}

/// Appending a pool implicant keeps the selection drawn from the pool.
proof fn lemma_from_pool_push(s: Seq<Minterm>, x: Minterm, pool: Seq<Minterm>)
    requires
        from_pool(s, pool),
        in_pool(x, pool),
    ensures
        from_pool(s.push(x), pool),
{
    assert forall|k: int| 0 <= k < s.push(x).len() implies #[trigger] in_pool(
        s.push(x)[k],
        pool,
    ) by {
        if k < s.len() {
            assert(s.push(x)[k] == s[k]);
            assert(in_pool(s[k], pool));
        } else {
            assert(s.push(x)[k] == x);
        }
    }
}

/// Appending an implicant that covers a still-uncovered ON-row keeps every
/// selection non-redundant.
proof fn lemma_adds_coverage_push(s: Seq<Minterm>, x: Minterm, on: Seq<u64>, i: u64)
    requires
        adds_coverage(s, on),
        on.contains(i),
        x.covered_minterms@.contains(i),
        !covered_by_some(s, i),
    ensures
        adds_coverage(s.push(x), on),
{
    let s2 = s.push(x);
    assert forall|k: int| 0 <= k < s2.len() implies #[trigger] covers_new_row(s2, k, on) by {
        if k < s.len() {
            assert(covers_new_row(s, k, on));
            let i0 = choose|i0: u64|
                on.contains(i0) && #[trigger] s[k].covered_minterms@.contains(i0)
                    && !covered_by_some(s.take(k), i0);
            assert(s2.take(k) =~= s.take(k));
            assert(s2[k] == s[k]);
            assert(s2[k].covered_minterms@.contains(i0));
        } else {
            assert(s2.take(k) =~= s);
            assert(s2[k] == x);
            assert(s2[k].covered_minterms@.contains(i));
        }
    }
}

/// The implicant covers one of the given rows.
spec fn covers_some(m: Minterm, rows: Seq<u64>) -> bool {
    exists|j: int| 0 <= j < rows.len() && m.covered_minterms@.contains(#[trigger] rows[j])
}

/// How many of the given row indices the implicant covers; the greedy
/// phase ranks candidates by this count.
fn count_covered(mt: &Minterm, rows: &Vec<u64>) -> (r: usize)
    ensures
        r <= rows@.len(),
        (r > 0) == covers_some(*mt, rows@),
{
    let mut c: usize = 0;
    let mut i: usize = 0;
    while i < rows.len()
        invariant
            0 <= i <= rows@.len(),
            c <= i,
            (c > 0) == exists|j: int|
                0 <= j < i && mt.covered_minterms@.contains(#[trigger] rows@[j]),
        decreases rows@.len() - i,
    {
        if contains_u64(&mt.covered_minterms, rows[i]) {
            c = c + 1;
            proof {
                assert(mt.covered_minterms@.contains(rows@[i as int]));
            }
        }
        i = i + 1;
    }
    c
}

/// Whether a vector holds an index.
fn contains_usize(v: &Vec<usize>, x: usize) -> (r: bool)
    ensures
        r == v@.contains(x),
{
    let mut i: usize = 0;
    while i < v.len()
        invariant
            0 <= i <= v@.len(),
            forall|k: int| 0 <= k < i ==> v@[k] != x,
        decreases v@.len() - i,
    {
        if v[i] == x {
            return true;
        }
        i = i + 1;
    }
    proof {
        if v@.contains(x) {
            let k = choose|k: int| 0 <= k < v@.len() && v@[k] == x;
        }
    }
    false
}

/// Removes a row index from a sorted vector, if present.
fn remove_u64(v: &mut Vec<u64>, x: u64)
    requires
        sorted_u64(old(v)@),
    ensures
        sorted_u64(final(v)@),
        forall|y: u64| #[trigger] final(v)@.contains(y) <==> (old(v)@.contains(y) && y != x),
{
    let mut i: usize = 0;
    while i < v.len()
        invariant
            sorted_u64(v@),
            v@ == old(v)@,
            0 <= i <= v@.len(),
            forall|k: int| 0 <= k < i ==> v@[k] != x,
        decreases v@.len() - i,
    {
        if v[i] == x {
            let ghost pre = v@;
            v.remove(i);
            proof {
                assert(v@ =~= pre.remove(i as int));
                assert forall|a: int, b: int| 0 <= a < b < v@.len() implies v@[a] < v@[b] by {
                    let ii = i as int;
                    if a < ii && b < ii {
                    } else if a < ii {
                        assert(v@[b] == pre[b + 1]);
                    } else {
                        assert(v@[a] == pre[a + 1] && v@[b] == pre[b + 1]);
                    }
                }
                assert forall|y: u64| #[trigger] v@.contains(y) implies (pre.contains(y) && y
                    != x) by {
                    let k = choose|k: int| 0 <= k < v@.len() && v@[k] == y;
                    let ii = i as int;
                    if k < ii {
                        assert(pre[k] == y);
                        assert(y != x);
                    } else {
                        assert(pre[k + 1] == y);
                        assert(pre[ii] == x);
                        assert(pre[ii] < pre[k + 1]);
                    }
                }
                assert forall|y: u64| (pre.contains(y) && y != x) implies #[trigger] v@.contains(
                    y,
                ) by {
                    let k = choose|k: int| 0 <= k < pre.len() && pre[k] == y;
                    let ii = i as int;
                    if k < ii {
                        assert(v@[k] == y);
                    } else if k > ii {
                        assert(v@[k - 1] == y);
                    }
                }
            }
            return ;
        }
        i = i + 1;
    }
    proof {
        assert forall|y: u64| #[trigger] v@.contains(y) implies (old(v)@.contains(y) && y
            != x) by {
            let k = choose|k: int| 0 <= k < v@.len() && v@[k] == y;
        }
    }
}

/// Whether a sequence of indices holds the position `k`.
spec fn tr_contains(s: Seq<usize>, k: int) -> bool {
    exists|t: int| 0 <= t < s.len() && (#[trigger] s[t]) as int == k
}

/// Implicant `k` of the old pool has a twin (same covered rows) in the new
/// pool.
spec fn kept(old_pool: Seq<Minterm>, new_pool: Seq<Minterm>, k: int) -> bool {
    exists|j: int|
        0 <= j < new_pool.len() && (#[trigger] new_pool[j]).covered_minterms@
            == old_pool[k].covered_minterms@
}

/// A row covered by an element of the sequence stays covered when one more
/// implicant is appended.
proof fn lemma_covered_by_push(s: Seq<Minterm>, x: Minterm, i: u64)
    requires
        covered_by_some(s, i),
    ensures
        covered_by_some(s.push(x), i),
{
    let k = choose|k: int| 0 <= k < s.len() && (#[trigger] s[k]).covered_minterms@.contains(i);
    assert(s.push(x)[k] == s[k]);
}

impl QuineMcCluskey {
    /// Selects a cover of the ON-set from the prime implicants.  First the
    /// essential phase: while some uncovered minterm has exactly one
    /// remaining candidate covering it, that candidate is selected (this
    /// phase is exact).  Then the greedy phase: the candidate covering the
    /// most still-uncovered minterms is selected, ties going to the first
    /// encountered — a heuristic, not a guaranteed global minimum.  Every
    /// selection is one of the given primes and covers a minterm that no
    /// earlier selection covers.
    #[verifier::loop_isolation(false)]
    #[verifier::rlimit(100)]
    fn find_minimal_cover(&self, prime_implicants: &Vec<Minterm>) -> (r: Vec<Minterm>)
        requires
            self.wf(),
            all_wf(prime_implicants@, self.variables@.len() as nat, self.minterms@),
            forall|j: int|
                0 <= j < self.minterms@.len() ==> covered_by_some(
                    prime_implicants@,
                    #[trigger] self.minterms@[j],
                ),
        ensures
            all_wf(r@, self.variables@.len() as nat, self.minterms@),
            forall|j: int|
                0 <= j < self.minterms@.len() ==> covered_by_some(
                    r@,
                    #[trigger] self.minterms@[j],
                ),
            from_pool(r@, prime_implicants@),
            adds_coverage(r@, self.minterms@),
    {
        let ghost n = self.variables@.len() as nat;
        let ghost on = self.minterms@;
        if prime_implicants.len() == 0 {
            let r: Vec<Minterm> = Vec::new();
            proof {
                assert forall|j: int| 0 <= j < on.len() implies covered_by_some(
                    r@,
                    #[trigger] on[j],
                ) by {
                    assert(covered_by_some(prime_implicants@, on[j]));
                    let k = choose|k: int|
                        0 <= k < prime_implicants@.len() && (#[trigger] prime_implicants@[k]).covered_minterms@.contains(
                            on[j],
                        );
                }
            }
            return r;
        }

        let mut uncovered: Vec<u64> = copy_u64_vec(&self.minterms);
        let mut selected_implicants: Vec<Minterm> = Vec::new();
        let mut available_implicants: Vec<Minterm> = Vec::new();
        let mut k0: usize = 0;
        while k0 < prime_implicants.len()
            invariant
                0 <= k0 <= prime_implicants@.len(),
                all_wf(prime_implicants@, n, on),
                all_wf(available_implicants@, n, on),
                available_implicants@.len() == k0,
                forall|k: int|
                    0 <= k < k0 ==> (#[trigger] available_implicants@[k]).covered_minterms@
                        == prime_implicants@[k].covered_minterms@,
                from_pool(available_implicants@, prime_implicants@),
            decreases prime_implicants@.len() - k0,
        {
            let ghost ap = available_implicants@;
            available_implicants.push(prime_implicants[k0].duplicate());
            proof {
                let last = available_implicants@.len() - 1;
                assert(same_implicant(available_implicants@[last], prime_implicants@[k0 as int]));
                assert(in_pool(available_implicants@[last], prime_implicants@));
                lemma_from_pool_push(ap, available_implicants@[last], prime_implicants@);
                assert(available_implicants@ == ap.push(available_implicants@[last]));
            }
            k0 = k0 + 1;
        }
        proof {
            assert forall|j: int| 0 <= j < uncovered@.len() implies covered_by_some(
                available_implicants@,
                #[trigger] uncovered@[j],
            ) by {
                assert(covered_by_some(prime_implicants@, on[j]));
                let k = choose|k: int|
                    0 <= k < prime_implicants@.len() && (#[trigger] prime_implicants@[k]).covered_minterms@.contains(
                        on[j],
                    );
                assert(available_implicants@[k].covered_minterms@.contains(on[j]));
            }
        }

        // essential phase
        let mut keep_going = true;
        while keep_going
            invariant
                sorted_u64(uncovered@),
                all_wf(selected_implicants@, n, on),
                all_wf(available_implicants@, n, on),
                forall|j: int|
                    0 <= j < uncovered@.len() ==> on.contains(#[trigger] uncovered@[j]),
                forall|j: int|
                    0 <= j < on.len() ==> uncovered@.contains(#[trigger] on[j])
                        || covered_by_some(selected_implicants@, on[j]),
                forall|j: int|
                    0 <= j < uncovered@.len() ==> covered_by_some(
                        available_implicants@,
                        #[trigger] uncovered@[j],
                    ),
                from_pool(selected_implicants@, prime_implicants@),
                from_pool(available_implicants@, prime_implicants@),
                adds_coverage(selected_implicants@, on),
                forall|j: int|
                    0 <= j < uncovered@.len() ==> !covered_by_some(
                        selected_implicants@,
                        #[trigger] uncovered@[j],
                    ),
            decreases available_implicants@.len() + (if keep_going {
                1int
            } else {
                0int
            }),
        {
            let mut essential_found = false;
            let mut to_remove: Vec<usize> = Vec::new();
            let mut covered_by_essential: Vec<u64> = Vec::new();
            let ghost avail0 = available_implicants@;
            let ghost unc0 = uncovered@;
            let ghost sel_pass = selected_implicants@;

            // find essential prime implicants for still-uncovered minterms
            let mut mi: usize = 0;
            while mi < uncovered.len()
                invariant
                    self.wf(),
                    n == self.variables@.len(),
                    on == self.minterms@,
                    uncovered@ == unc0,
                    available_implicants@ == avail0,
                    0 <= mi <= uncovered@.len(),
                    sorted_u64(uncovered@),
                    all_wf(selected_implicants@, n, on),
                    all_wf(available_implicants@, n, on),
                    forall|j: int|
                        0 <= j < uncovered@.len() ==> on.contains(#[trigger] uncovered@[j]),
                    forall|j: int|
                        0 <= j < on.len() ==> uncovered@.contains(#[trigger] on[j])
                            || covered_by_some(selected_implicants@, on[j]),
                    forall|t: int|
                        0 <= t < to_remove@.len() ==> (#[trigger] to_remove@[t])
                            < available_implicants@.len(),
                    forall|t: int|
                        0 <= t < to_remove@.len() ==> (forall|i: u64|
                            avail0[(#[trigger] to_remove@[t]) as int].covered_minterms@.contains(
                                i,
                            ) ==> #[trigger] covered_by_essential@.contains(i)),
                    forall|ci: int|
                        0 <= ci < covered_by_essential@.len() ==> covered_by_some(
                            selected_implicants@,
                            #[trigger] covered_by_essential@[ci],
                        ),
                    essential_found == (to_remove@.len() > 0),
                    selected_implicants@.len() == sel_pass.len() + to_remove@.len(),
                    forall|j: int|
                        0 <= j < sel_pass.len() ==> (#[trigger] selected_implicants@[j])
                            == sel_pass[j],
                    forall|t: int|
                        0 <= t < to_remove@.len() ==> selected_implicants@[sel_pass.len()
                            + t].covered_minterms@ == avail0[(#[trigger] to_remove@[t]) as int].covered_minterms@,
                    from_pool(selected_implicants@, prime_implicants@),
                    adds_coverage(selected_implicants@, on),
                    forall|j: int|
                        0 <= j < uncovered@.len() ==> !covered_by_some(
                            sel_pass,
                            #[trigger] uncovered@[j],
                        ),
                decreases uncovered@.len() - mi,
            {
                let m: u64 = uncovered[mi];
                let mut cnt: usize = 0;
                let mut found_idx: usize = 0;
                let mut k: usize = 0;
                while k < available_implicants.len()
                    invariant
                        0 <= k <= available_implicants@.len(),
                        cnt <= k,
                        cnt >= 1 ==> found_idx < available_implicants@.len()
                            && available_implicants@[found_idx as int].covered_minterms@.contains(
                            m,
                        ),
                        cnt == 0 ==> forall|j: int|
                            0 <= j < k ==> !(#[trigger] available_implicants@[j]).covered_minterms@.contains(
                                m,
                            ),
                        cnt == 1 ==> forall|j: int|
                            0 <= j < k && j != found_idx
                                ==> !(#[trigger] available_implicants@[j]).covered_minterms@.contains(
                                m,
                            ),
                    decreases available_implicants@.len() - k,
                {
                    if contains_u64(&available_implicants[k].covered_minterms, m) {
                        cnt = cnt + 1;
                        found_idx = k;
                    }
                    k = k + 1;
                }
                if cnt == 1 {
                    if !contains_usize(&to_remove, found_idx) {
                        let ghost sel0 = selected_implicants@;
                        let ghost cbe0 = covered_by_essential@;
                        selected_implicants.push(available_implicants[found_idx].duplicate());
                        proof {
                            let last = selected_implicants@.len() - 1;
                            assert(selected_implicants@[last].covered_minterms@
                                == avail0[found_idx as int].covered_minterms@);
                            assert forall|j: int| 0 <= j < on.len() implies uncovered@.contains(
                                #[trigger] on[j],
                            ) || covered_by_some(selected_implicants@, on[j]) by {
                                if covered_by_some(sel0, on[j]) {
                                    lemma_covered_by_push(
                                        sel0,
                                        selected_implicants@[last],
                                        on[j],
                                    );
                                }
                            }
                            assert forall|ci: int|
                                0 <= ci < cbe0.len() implies covered_by_some(
                                selected_implicants@,
                                #[trigger] cbe0[ci],
                            ) by {
                                lemma_covered_by_push(sel0, selected_implicants@[last], cbe0[ci]);
                            }
                            // the selection is a pool implicant
                            assert(same_implicant(
                                selected_implicants@[last],
                                avail0[found_idx as int],
                            ));
                            assert(in_pool(avail0[found_idx as int], prime_implicants@));
                            let jp = choose|jp: int|
                                0 <= jp < prime_implicants@.len() && same_implicant(
                                    avail0[found_idx as int],
                                    #[trigger] prime_implicants@[jp],
                                );
                            assert(same_implicant(
                                selected_implicants@[last],
                                prime_implicants@[jp],
                            ));
                            assert(in_pool(selected_implicants@[last], prime_implicants@));
                            lemma_from_pool_push(
                                sel0,
                                selected_implicants@[last],
                                prime_implicants@,
                            );
                            assert(selected_implicants@ == sel0.push(selected_implicants@[last]));
                            // it covers the scanned minterm, which nothing
                            // selected before it covers: earlier passes left
                            // the minterm uncovered, and an earlier selection
                            // of this pass would have been a second coverer
                            let mw = uncovered@[mi as int];
                            assert(avail0[found_idx as int].covered_minterms@.contains(mw));
                            assert(!covered_by_some(sel0, mw)) by {
                                if covered_by_some(sel0, mw) {
                                    let si = choose|si: int|
                                        0 <= si < sel0.len() && (#[trigger] sel0[si]).covered_minterms@.contains(
                                            mw,
                                        );
                                    if si < sel_pass.len() {
                                        assert(sel0[si] == sel_pass[si]);
                                        assert(!covered_by_some(sel_pass, uncovered@[mi as int]));
                                        assert(false);
                                    } else {
                                        let t = si - sel_pass.len();
                                        assert(sel0[si].covered_minterms@
                                            == avail0[to_remove@[t] as int].covered_minterms@);
                                        assert(avail0[to_remove@[t] as int].covered_minterms@.contains(
                                            mw,
                                        ));
                                        assert(to_remove@[t] != found_idx) by {
                                            if to_remove@[t] == found_idx {
                                                assert(to_remove@.contains(found_idx));
                                            }
                                        }
                                        assert(false);
                                    }
                                }
                            }
                            assert(on.contains(mw));
                            assert(selected_implicants@[last].covered_minterms@.contains(mw));
                            lemma_adds_coverage_push(
                                sel0,
                                selected_implicants@[last],
                                on,
                                mw,
                            );
                        }
                        // record its coverage for removal from the uncovered set
                        let mut ci: usize = 0;
                        while ci < available_implicants[found_idx].covered_minterms.len()
                            invariant
                                found_idx < available_implicants@.len(),
                                available_implicants@ == avail0,
                                0 <= ci <= avail0[found_idx as int].covered_minterms@.len(),
                                selected_implicants@.len() > 0,
                                selected_implicants@.last().covered_minterms@
                                    == avail0[found_idx as int].covered_minterms@,
                                all_wf(selected_implicants@, n, on),
                                forall|c: int|
                                    0 <= c < ci ==> covered_by_essential@.contains(
                                        #[trigger] avail0[found_idx as int].covered_minterms@[c],
                                    ),
                                forall|c: int|
                                    0 <= c < covered_by_essential@.len() ==> covered_by_some(
                                        selected_implicants@,
                                        #[trigger] covered_by_essential@[c],
                                    ),
                                forall|t: int|
                                    0 <= t < to_remove@.len() ==> (forall|i: u64|
                                        avail0[(#[trigger] to_remove@[t]) as int].covered_minterms@.contains(
                                            i,
                                        ) ==> #[trigger] covered_by_essential@.contains(i)),
                            decreases avail0[found_idx as int].covered_minterms@.len() - ci,
                        {
                            let ghost cbe_pre = covered_by_essential@;
                            covered_by_essential.push(
                                available_implicants[found_idx].covered_minterms[ci],
                            );
                            proof {
                                broadcast use vstd::seq_lib::group_seq_properties;

                                let last = covered_by_essential@.len() - 1;
                                let y = covered_by_essential@[last];
                                assert(y == avail0[found_idx as int].covered_minterms@[ci as int]);
                                assert(selected_implicants@.last().covered_minterms@.contains(y));
                                let si = selected_implicants@.len() - 1;
                                assert((#[trigger] selected_implicants@[si]).covered_minterms@.contains(
                                    y,
                                ));
                            }
                            ci = ci + 1;
                        }
                        to_remove.push(found_idx);
                        proof {
                            broadcast use vstd::seq_lib::group_seq_properties;

                            assert forall|t: int|
                                0 <= t < to_remove@.len() implies selected_implicants@[sel_pass.len()
                                + t].covered_minterms@ == avail0[(#[trigger] to_remove@[t]) as int].covered_minterms@ by {
                                if t < to_remove@.len() - 1 {
                                    assert(selected_implicants@[sel_pass.len() + t]
                                        == sel0[sel_pass.len() + t]);
                                } else {
                                    assert(selected_implicants@[sel_pass.len() + t]
                                        == selected_implicants@.last());
                                }
                            }
                            assert forall|t: int| 0 <= t < to_remove@.len() implies (forall|
                                i: u64,
                            |
                                avail0[(#[trigger] to_remove@[t]) as int].covered_minterms@.contains(
                                    i,
                                ) ==> #[trigger] covered_by_essential@.contains(i)) by {
                                if t == to_remove@.len() - 1 {
                                    assert forall|i: u64|
                                        avail0[found_idx as int].covered_minterms@.contains(
                                            i,
                                        ) implies #[trigger] covered_by_essential@.contains(
                                        i,
                                    ) by {
                                        let c = choose|c: int|
                                            0 <= c < avail0[found_idx as int].covered_minterms@.len()
                                                && avail0[found_idx as int].covered_minterms@[c]
                                                == i;
                                        assert(covered_by_essential@.contains(
                                            avail0[found_idx as int].covered_minterms@[c],
                                        ));
                                    }
                                }
                            }
                        }
                        essential_found = true;
                    }
                }
                mi = mi + 1;
            }

            // drop the newly covered minterms
            let mut ci: usize = 0;
            while ci < covered_by_essential.len()
                invariant
                    0 <= ci <= covered_by_essential@.len(),
                    sorted_u64(uncovered@),
                    on == self.minterms@,
                    forall|j: int|
                        0 <= j < uncovered@.len() ==> on.contains(#[trigger] uncovered@[j]),
                    forall|j: int|
                        0 <= j < uncovered@.len() ==> unc0.contains(#[trigger] uncovered@[j]),
                    forall|j: int|
                        0 <= j < uncovered@.len() ==> !covered_by_some(
                            sel_pass,
                            #[trigger] uncovered@[j],
                        ),
                    forall|j: int|
                        0 <= j < on.len() ==> uncovered@.contains(#[trigger] on[j])
                            || covered_by_some(selected_implicants@, on[j]),
                    forall|c: int|
                        0 <= c < covered_by_essential@.len() ==> covered_by_some(
                            selected_implicants@,
                            #[trigger] covered_by_essential@[c],
                        ),
                    forall|j: int, c: int|
                        0 <= j < uncovered@.len() && 0 <= c < ci ==> (#[trigger] uncovered@[j])
                            != (#[trigger] covered_by_essential@[c]),
                decreases covered_by_essential@.len() - ci,
            {
                let ghost upre = uncovered@;
                remove_u64(&mut uncovered, covered_by_essential[ci]);
                proof {
                    assert forall|j: int| 0 <= j < uncovered@.len() implies upre.contains(
                        #[trigger] uncovered@[j],
                    ) by {
                        assert(uncovered@.contains(uncovered@[j]));
                    }
                    assert forall|j: int| 0 <= j < uncovered@.len() implies unc0.contains(
                        #[trigger] uncovered@[j],
                    ) by {
                        let j0 = choose|j0: int| 0 <= j0 < upre.len() && upre[j0] == uncovered@[j];
                    }
                    assert forall|j: int| 0 <= j < on.len() implies uncovered@.contains(
                        #[trigger] on[j],
                    ) || covered_by_some(selected_implicants@, on[j]) by {
                        if upre.contains(on[j]) && !uncovered@.contains(on[j]) {
                            assert(on[j] == covered_by_essential@[ci as int]);
                        }
                    }
                    assert forall|j: int, c: int|
                        0 <= j < uncovered@.len() && 0 <= c < ci + 1 implies (
                    #[trigger] uncovered@[j]) != (#[trigger] covered_by_essential@[c]) by {
                        if c == ci as int {
                            assert(uncovered@.contains(uncovered@[j]));
                        } else {
                            let j0 = choose|j0: int|
                                0 <= j0 < upre.len() && upre[j0] == uncovered@[j];
                        }
                    }
                    assert forall|j: int| 0 <= j < uncovered@.len() implies !covered_by_some(
                        sel_pass,
                        #[trigger] uncovered@[j],
                    ) by {
                        let j0 = choose|j0: int| 0 <= j0 < upre.len() && upre[j0] == uncovered@[j];
                    }
                }
                ci = ci + 1;
            }

            // drop the selected candidates from the available pool
            let mut new_available: Vec<Minterm> = Vec::new();
            let mut k2: usize = 0;
            while k2 < available_implicants.len()
                invariant
                    available_implicants@ == avail0,
                    0 <= k2 <= avail0.len(),
                    all_wf(available_implicants@, n, on),
                    all_wf(new_available@, n, on),
                    forall|t: int|
                        0 <= t < to_remove@.len() ==> (#[trigger] to_remove@[t]) < avail0.len(),
                    to_remove@.len() > 0 && k2 > to_remove@[0] ==> new_available@.len() < k2,
                    to_remove@.len() == 0 ==> new_available@.len() == k2,
                    new_available@.len() <= k2,
                    forall|k: int|
                        0 <= k < k2 && !tr_contains(to_remove@, k) ==> #[trigger] kept(
                            avail0,
                            new_available@,
                            k,
                        ),
                    from_pool(new_available@, prime_implicants@),
                decreases avail0.len() - k2,
            {
                if !contains_usize(&to_remove, k2) {
                    let ghost na0 = new_available@;
                    new_available.push(available_implicants[k2].duplicate());
                    proof {
                        let lastn = new_available@.len() - 1;
                        assert(same_implicant(new_available@[lastn], avail0[k2 as int]));
                        assert(in_pool(avail0[k2 as int], prime_implicants@));
                        let jp = choose|jp: int|
                            0 <= jp < prime_implicants@.len() && same_implicant(
                                avail0[k2 as int],
                                #[trigger] prime_implicants@[jp],
                            );
                        assert(same_implicant(new_available@[lastn], prime_implicants@[jp]));
                        assert(in_pool(new_available@[lastn], prime_implicants@));
                        lemma_from_pool_push(na0, new_available@[lastn], prime_implicants@);
                        assert(new_available@ == na0.push(new_available@[lastn]));
                        assert forall|k: int|
                            0 <= k < k2 + 1 && !tr_contains(to_remove@, k) implies #[trigger] kept(
                            avail0,
                            new_available@,
                            k,
                        ) by {
                            if k < k2 as int {
                                assert(kept(avail0, na0, k));
                                let j0 = choose|j0: int|
                                    0 <= j0 < na0.len() && (#[trigger] na0[j0]).covered_minterms@
                                        == avail0[k].covered_minterms@;
                                assert(new_available@[j0].covered_minterms@
                                    == avail0[k].covered_minterms@);
                            } else {
                                assert(new_available@[new_available@.len() - 1].covered_minterms@
                                    == avail0[k].covered_minterms@);
                            }
                        }
                    }
                } else {
                    proof {
                        assert(to_remove@.contains(k2));
                        let t0 = choose|t0: int|
                            0 <= t0 < to_remove@.len() && to_remove@[t0] == k2;
                        assert(tr_contains(to_remove@, k2 as int));
                        assert forall|k: int|
                            0 <= k < k2 + 1 && !tr_contains(to_remove@, k) implies #[trigger] kept(
                            avail0,
                            new_available@,
                            k,
                        ) by {
                            assert(k != k2 as int);
                            assert(kept(avail0, new_available@, k));
                        }
                    }
                }
                k2 = k2 + 1;
            }
            let ghost new_avail_view = new_available@;
            proof {
                assert(from_pool(new_avail_view, prime_implicants@));
            }
            available_implicants = new_available;
            proof {
                assert forall|k2: int|
                    0 <= k2 < available_implicants@.len() implies #[trigger] in_pool(
                    available_implicants@[k2],
                    prime_implicants@,
                ) by {
                    assert(in_pool(new_avail_view[k2], prime_implicants@));
                }
                if essential_found {
                    assert(to_remove@.len() > 0);
                    assert(to_remove@[0] < avail0.len());
                    assert(available_implicants@.len() < avail0.len());
                }
                // what stays uncovered keeps a candidate covering it
                assert forall|j: int| 0 <= j < uncovered@.len() implies covered_by_some(
                    available_implicants@,
                    #[trigger] uncovered@[j],
                ) by {
                    let y = uncovered@[j];
                    assert(unc0.contains(y));
                    let j0 = choose|j0: int| 0 <= j0 < unc0.len() && unc0[j0] == y;
                    assert(covered_by_some(avail0, unc0[j0]));
                    let k = choose|k: int|
                        0 <= k < avail0.len() && (#[trigger] avail0[k]).covered_minterms@.contains(
                            y,
                        );
                    if tr_contains(to_remove@, k) {
                        let t = choose|t: int|
                            0 <= t < to_remove@.len() && (#[trigger] to_remove@[t]) as int == k;
                        assert(avail0[to_remove@[t] as int].covered_minterms@.contains(y));
                        assert(covered_by_essential@.contains(y));
                        let c = choose|c: int|
                            0 <= c < covered_by_essential@.len() && covered_by_essential@[c] == y;
                        assert(uncovered@[j] != covered_by_essential@[c]);
                        assert(false);
                    } else {
                        assert(kept(avail0, new_avail_view, k));
                        let j2 = choose|j2: int|
                            0 <= j2 < new_avail_view.len() && (#[trigger] new_avail_view[j2]).covered_minterms@
                                == avail0[k].covered_minterms@;
                        assert(available_implicants@[j2].covered_minterms@.contains(y));
                    }
                }
                // what stays uncovered is covered by no selection: earlier
                // selections left it uncovered, and this pass's selections
                // had their whole coverage removed
                assert forall|j: int| 0 <= j < uncovered@.len() implies !covered_by_some(
                    selected_implicants@,
                    #[trigger] uncovered@[j],
                ) by {
                    let y = uncovered@[j];
                    if covered_by_some(selected_implicants@, y) {
                        let si = choose|si: int|
                            0 <= si < selected_implicants@.len() && (
                            #[trigger] selected_implicants@[si]).covered_minterms@.contains(y);
                        if si < sel_pass.len() {
                            assert(selected_implicants@[si] == sel_pass[si]);
                            assert(!covered_by_some(sel_pass, y));
                            assert(false);
                        } else {
                            let t = si - sel_pass.len();
                            assert(selected_implicants@[si].covered_minterms@
                                == avail0[to_remove@[t] as int].covered_minterms@);
                            assert(avail0[to_remove@[t] as int].covered_minterms@.contains(y));
                            assert(covered_by_essential@.contains(y));
                            let c = choose|c: int|
                                0 <= c < covered_by_essential@.len() && covered_by_essential@[c]
                                    == y;
                            assert(uncovered@[j] != covered_by_essential@[c]);
                            assert(false);
                        }
                    }
                }
            }
            keep_going = essential_found;
        }

        // greedy phase for whatever remains
        while uncovered.len() > 0 && available_implicants.len() > 0
            invariant
                self.wf(),
                n == self.variables@.len(),
                on == self.minterms@,
                sorted_u64(uncovered@),
                all_wf(selected_implicants@, n, on),
                all_wf(available_implicants@, n, on),
                forall|j: int|
                    0 <= j < on.len() ==> uncovered@.contains(#[trigger] on[j])
                        || covered_by_some(selected_implicants@, on[j]),
                forall|j: int|
                    0 <= j < uncovered@.len() ==> covered_by_some(
                        available_implicants@,
                        #[trigger] uncovered@[j],
                    ),
                from_pool(selected_implicants@, prime_implicants@),
                from_pool(available_implicants@, prime_implicants@),
                adds_coverage(selected_implicants@, on),
                forall|j: int|
                    0 <= j < uncovered@.len() ==> !covered_by_some(
                        selected_implicants@,
                        #[trigger] uncovered@[j],
                    ),
            decreases available_implicants@.len(),
        {
            // the candidate covering the most still-uncovered minterms;
            // ties go to the first one encountered
            let mut best_idx: usize = 0;
            let mut best_count: usize = count_covered(&available_implicants[0], &uncovered);
            let mut k: usize = 1;
            while k < available_implicants.len()
                invariant
                    1 <= k <= available_implicants@.len(),
                    best_idx < k,
                    best_count > 0 ==> covers_some(
                        available_implicants@[best_idx as int],
                        uncovered@,
                    ),
                    forall|k2: int|
                        0 <= k2 < k && #[trigger] covers_some(
                            available_implicants@[k2],
                            uncovered@,
                        ) ==> best_count > 0,
                decreases available_implicants@.len() - k,
            {
                let c = count_covered(&available_implicants[k], &uncovered);
                if c > best_count {
                    best_count = c;
                    best_idx = k;
                }
                k = k + 1;
            }

            let ghost sel0 = selected_implicants@;
            selected_implicants.push(available_implicants[best_idx].duplicate());
            proof {
                let last = selected_implicants@.len() - 1;
                assert forall|j: int| 0 <= j < on.len() implies uncovered@.contains(
                    #[trigger] on[j],
                ) || covered_by_some(selected_implicants@, on[j]) by {
                    if covered_by_some(sel0, on[j]) {
                        lemma_covered_by_push(sel0, selected_implicants@[last], on[j]);
                    }
                }
                // the selection is a pool implicant
                assert(same_implicant(
                    selected_implicants@[last],
                    available_implicants@[best_idx as int],
                ));
                assert(in_pool(available_implicants@[best_idx as int], prime_implicants@));
                let jp = choose|jp: int|
                    0 <= jp < prime_implicants@.len() && same_implicant(
                        available_implicants@[best_idx as int],
                        #[trigger] prime_implicants@[jp],
                    );
                assert(same_implicant(selected_implicants@[last], prime_implicants@[jp]));
                assert(in_pool(selected_implicants@[last], prime_implicants@));
                lemma_from_pool_push(sel0, selected_implicants@[last], prime_implicants@);
                assert(selected_implicants@ == sel0.push(selected_implicants@[last]));
                // the pick covers at least one still-uncovered row: some
                // candidate does, so the best count is positive
                assert(covered_by_some(available_implicants@, uncovered@[0]));
                let kc = choose|kc: int|
                    0 <= kc < available_implicants@.len() && (
                    #[trigger] available_implicants@[kc]).covered_minterms@.contains(
                        uncovered@[0],
                    );
                assert(covers_some(available_implicants@[kc], uncovered@)) by {
                    assert(available_implicants@[kc].covered_minterms@.contains(uncovered@[0]));
                }
                assert(best_count > 0);
                assert(covers_some(available_implicants@[best_idx as int], uncovered@));
                let ju = choose|ju: int|
                    0 <= ju < uncovered@.len()
                        && available_implicants@[best_idx as int].covered_minterms@.contains(
                        #[trigger] uncovered@[ju],
                    );
                let mw = uncovered@[ju];
                assert(on.contains(mw));
                assert(!covered_by_some(sel0, mw));
                assert(selected_implicants@[last].covered_minterms@.contains(mw));
                lemma_adds_coverage_push(sel0, selected_implicants@[last], on, mw);
            }

            // drop its coverage from the uncovered set
            let ghost chosen_cov = available_implicants@[best_idx as int].covered_minterms@;
            let mut ci: usize = 0;
            while ci < available_implicants[best_idx].covered_minterms.len()
                invariant
                    best_idx < available_implicants@.len(),
                    0 <= ci <= chosen_cov.len(),
                    chosen_cov == available_implicants@[best_idx as int].covered_minterms@,
                    sorted_u64(uncovered@),
                    on == self.minterms@,
                    selected_implicants@.len() > 0,
                    selected_implicants@.last().covered_minterms@ == chosen_cov,
                    all_wf(selected_implicants@, n, on),
                    all_wf(available_implicants@, n, on),
                    forall|j: int|
                        0 <= j < on.len() ==> uncovered@.contains(#[trigger] on[j])
                            || covered_by_some(selected_implicants@, on[j]),
                    forall|j: int|
                        0 <= j < uncovered@.len() ==> covered_by_some(
                            available_implicants@,
                            #[trigger] uncovered@[j],
                        ),
                    forall|j: int, c: int|
                        0 <= j < uncovered@.len() && 0 <= c < ci ==> (#[trigger] uncovered@[j])
                            != (#[trigger] chosen_cov[c]),
                    forall|j: int|
                        0 <= j < uncovered@.len() ==> !covered_by_some(
                            sel0,
                            #[trigger] uncovered@[j],
                        ),
                decreases chosen_cov.len() - ci,
            {
                let ghost upre = uncovered@;
                remove_u64(&mut uncovered, available_implicants[best_idx].covered_minterms[ci]);
                proof {
                    let last = selected_implicants@.len() - 1;
                    assert forall|j: int| 0 <= j < uncovered@.len() implies upre.contains(
                        #[trigger] uncovered@[j],
                    ) by {
                        assert(uncovered@.contains(uncovered@[j]));
                    }
                    assert forall|j: int| 0 <= j < on.len() implies uncovered@.contains(
                        #[trigger] on[j],
                    ) || covered_by_some(selected_implicants@, on[j]) by {
                        if upre.contains(on[j]) && !uncovered@.contains(on[j]) {
                            assert(on[j] == chosen_cov[ci as int]);
                            assert(chosen_cov.contains(on[j]));
                            assert(selected_implicants@[last].covered_minterms@.contains(on[j]));
                        }
                    }
                    assert forall|j: int| 0 <= j < uncovered@.len() implies covered_by_some(
                        available_implicants@,
                        #[trigger] uncovered@[j],
                    ) by {
                        assert(upre.contains(uncovered@[j]));
                        let j0 = choose|j0: int| 0 <= j0 < upre.len() && upre[j0] == uncovered@[j];
                    }
                    assert forall|j: int, c: int|
                        0 <= j < uncovered@.len() && 0 <= c < ci + 1 implies (
                    #[trigger] uncovered@[j]) != (#[trigger] chosen_cov[c]) by {
                        if c == ci as int {
                            assert(uncovered@.contains(uncovered@[j]));
                        } else {
                            let j0 = choose|j0: int|
                                0 <= j0 < upre.len() && upre[j0] == uncovered@[j];
                        }
                    }
                    assert forall|j: int| 0 <= j < uncovered@.len() implies !covered_by_some(
                        sel0,
                        #[trigger] uncovered@[j],
                    ) by {
                        let j0 = choose|j0: int| 0 <= j0 < upre.len() && upre[j0] == uncovered@[j];
                    }
                }
                ci = ci + 1;
            }

            let ghost avail_pre = available_implicants@;
            available_implicants.remove(best_idx);
            proof {
                assert(available_implicants@ =~= avail_pre.remove(best_idx as int));
                assert forall|j: int| 0 <= j < uncovered@.len() implies covered_by_some(
                    available_implicants@,
                    #[trigger] uncovered@[j],
                ) by {
                    let y = uncovered@[j];
                    let k1 = choose|k1: int|
                        0 <= k1 < avail_pre.len() && (#[trigger] avail_pre[k1]).covered_minterms@.contains(
                            y,
                        );
                    if k1 == best_idx as int {
                        // its coverage was just removed from the uncovered set
                        assert(chosen_cov.contains(y));
                        let c = choose|c: int| 0 <= c < chosen_cov.len() && chosen_cov[c] == y;
                        assert(uncovered@[j] != chosen_cov[c]);
                        assert(false);
                    } else if k1 < best_idx as int {
                        assert(available_implicants@[k1].covered_minterms@.contains(y));
                    } else {
                        assert(available_implicants@[k1 - 1].covered_minterms@.contains(y));
                    }
                }
                assert forall|k2: int|
                    0 <= k2 < available_implicants@.len() implies #[trigger] in_pool(
                    available_implicants@[k2],
                    prime_implicants@,
                ) by {
                    if k2 < best_idx as int {
                        assert(available_implicants@[k2] == avail_pre[k2]);
                        assert(in_pool(avail_pre[k2], prime_implicants@));
                    } else {
                        assert(available_implicants@[k2] == avail_pre[k2 + 1]);
                        assert(in_pool(avail_pre[k2 + 1], prime_implicants@));
                    }
                }
                // nothing still uncovered is covered by a selection: the
                // pick's whole coverage was just removed
                assert forall|j: int| 0 <= j < uncovered@.len() implies !covered_by_some(
                    selected_implicants@,
                    #[trigger] uncovered@[j],
                ) by {
                    let y = uncovered@[j];
                    if covered_by_some(selected_implicants@, y) {
                        let si = choose|si: int|
                            0 <= si < selected_implicants@.len() && (
                            #[trigger] selected_implicants@[si]).covered_minterms@.contains(y);
                        if si < sel0.len() {
                            assert(selected_implicants@[si] == sel0[si]);
                            assert(!covered_by_some(sel0, y));
                            assert(false);
                        } else {
                            assert(selected_implicants@[si].covered_minterms@ == chosen_cov);
                            assert(chosen_cov.contains(y));
                            let c = choose|c: int|
                                0 <= c < chosen_cov.len() && chosen_cov[c] == y;
                            assert(uncovered@[j] != chosen_cov[c]);
                            assert(false);
                        }
                    }
                }
            }
        }

        proof {
            if uncovered@.len() > 0 {
                assert(covered_by_some(available_implicants@, uncovered@[0]));
                let k = choose|k: int|
                    0 <= k < available_implicants@.len() && (
                    #[trigger] available_implicants@[k]).covered_minterms@.contains(uncovered@[0]);
            }
            assert forall|j: int| 0 <= j < on.len() implies covered_by_some(
                selected_implicants@,
                #[trigger] on[j],
            ) by {
                assert(!uncovered@.contains(on[j]));
            }
        }
        selected_implicants
    }
}

/// Every expression mentions at least one variable: the tree has no
/// constant leaves.
pub proof fn lemma_expr_vars_nonempty(e: Expr)
    ensures
        exists|v: Seq<char>| expr_vars(e).contains(v),
    decreases e,
{
    match e {
        Expr::Identifier(name) => {
            assert(expr_vars(e).contains(name@));
        },
        Expr::Not(inner) => {
            lemma_expr_vars_nonempty(*inner);
            let v = choose|v: Seq<char>| expr_vars(*inner).contains(v);
            assert(expr_vars(e).contains(v));
        },
        Expr::And(l, r) => {
            lemma_expr_vars_nonempty(*l);
            let v = choose|v: Seq<char>| expr_vars(*l).contains(v);
            assert(expr_vars(e).contains(v));
        },
        Expr::Or(l, r) => {
            lemma_expr_vars_nonempty(*l);
            let v = choose|v: Seq<char>| expr_vars(*l).contains(v);
            assert(expr_vars(e).contains(v));
        },
        Expr::Xor(l, r) => {
            lemma_expr_vars_nonempty(*l);
            let v = choose|v: Seq<char>| expr_vars(*l).contains(v);
            assert(expr_vars(e).contains(v));
        },
        Expr::Implication(l, r) => {
            lemma_expr_vars_nonempty(*l);
            let v = choose|v: Seq<char>| expr_vars(*l).contains(v);
            assert(expr_vars(e).contains(v));
        },
    }
}

/// The induced row index of an assignment fits in a `u64` when there are
/// fewer than 64 variables.
proof fn lemma_row_u64(vars: Seq<Seq<char>>, m: Map<Seq<char>, bool>)
    requires
        vars.len() < 64,
    ensures
        row_index_of(vars, m) < pow2(vars.len() as nat),
        ((row_index_of(vars, m) as u64) as nat) == row_index_of(vars, m),
{
    lemma_row_index_bound(vars, m);
    vstd::arithmetic::power2::lemma2_to64();
    vstd::arithmetic::power2::lemma2_to64_rest();
    if vars.len() < 63 {
        vstd::arithmetic::power2::lemma_pow2_strictly_increases(vars.len() as nat, 63);
    }
}

/// When every variable of `vars` reads in `m` as the corresponding bit of
/// the induced row index, the term constraints coincide with the bit
/// constraints.
proof fn lemma_term_vs_match(bits: Seq<Option<bool>>, vars: Seq<Seq<char>>, m: Map<Seq<char>, bool>)
    requires
        bits.len() == vars.len(),
    ensures
        term_holds(bits, vars, m) == bits_match(bits, row_index_of(vars, m)),
{
    let i = row_index_of(vars, m);
    assert forall|p: int| 0 <= p < vars.len() implies lookup(m, #[trigger] vars[p]) == nth_bit(
        i,
        p as nat,
    ) by {
        lemma_row_index_bits(vars, m, p);
    }
    if term_holds(bits, vars, m) {
        assert forall|p: int| 0 <= p < bits.len() implies bit_ok(#[trigger] bits[p], i, p) by {
            assert((bits[p] matches Some(b) ==> lookup(m, vars[p]) == b));
        }
    }
    if bits_match(bits, i) {
        assert forall|p: int|
            0 <= p < bits.len() implies ((#[trigger] bits[p]) matches Some(b) ==> lookup(
            m,
            vars[p],
        ) == b) by {
            assert(bit_ok(bits[p], i, p));
        }
    }
}

impl QuineMcCluskey {
    /// Rebuilds the selected implicants as a disjunction of their product
    /// terms, in selection order; an implicant with no literal contributes
    /// no term.
    fn implicants_to_expression(&self, implicants: &Vec<Minterm>) -> (r: Option<Expr>)
        requires
            self.wf(),
            all_wf(implicants@, self.variables@.len() as nat, self.minterms@),
        ensures
            match r {
                Some(t) => {
                    &&& is_sum_of_products(t, self.variables.as_set())
                    &&& forall|m: Map<Seq<char>, bool>|
                        eval_expr(t, m) == exists|k: int|
                            0 <= k < implicants@.len() && literals(
                                (#[trigger] implicants@[k]).bits@,
                            ) > 0 && term_holds(implicants@[k].bits@, self.variables@, m)
                    &&& forall|v: Seq<char>|
                        expr_vars(t).contains(v) ==> self.variables@.contains(v)
                },
                None => forall|k: int|
                    0 <= k < implicants@.len() ==> literals(
                        (#[trigger] implicants@[k]).bits@,
                    ) == 0,
            },
            (exists|k: int|
                0 <= k < implicants@.len() && literals((#[trigger] implicants@[k]).bits@) > 0)
                ==> r is Some,
    {
        let ghost vars = self.variables@;
        let mut result: Option<Expr> = None;
        let mut k: usize = 0;
        while k < implicants.len()
            invariant
                self.wf(),
                vars == self.variables@,
                all_wf(implicants@, vars.len() as nat, self.minterms@),
                0 <= k <= implicants@.len(),
                match result {
                    Some(acc) => {
                        &&& is_sum_of_products(acc, self.variables.as_set())
                        &&& forall|m: Map<Seq<char>, bool>|
                            eval_expr(acc, m) == exists|k2: int|
                                0 <= k2 < k && literals((#[trigger] implicants@[k2]).bits@) > 0
                                    && term_holds(implicants@[k2].bits@, vars, m)
                        &&& forall|v: Seq<char>| expr_vars(acc).contains(v) ==> vars.contains(v)
                    },
                    None => forall|k2: int|
                        0 <= k2 < k ==> literals((#[trigger] implicants@[k2]).bits@) == 0,
                },
            decreases implicants@.len() - k,
        {
            proof {
                assert(implicants@[k as int].inv(vars.len() as nat));
            }
            let term_opt = implicants[k].to_expression(&self.variables);
            match term_opt {
                Some(term) => {
                    let prev = result;
                    let next: Expr = match prev {
                        None => term,
                        Some(acc) => Expr::Or(Box::new(acc), Box::new(term)),
                    };
                    proof {
                        assert forall|m: Map<Seq<char>, bool>| eval_expr(next, m) == exists|
                            k2: int,
                        |
                            0 <= k2 < k + 1 && literals((#[trigger] implicants@[k2]).bits@) > 0
                                && term_holds(implicants@[k2].bits@, vars, m) by {
                            reveal_with_fuel(eval_expr, 2);
                            let here = literals(implicants@[k as int].bits@) > 0 && term_holds(
                                implicants@[k as int].bits@,
                                vars,
                                m,
                            );
                            if prev is None {
                                assert(eval_expr(next, m) == (here));
                                if eval_expr(next, m) {
                                    assert(literals(implicants@[k as int].bits@) > 0
                                        && term_holds(implicants@[k as int].bits@, vars, m));
                                }
                                if exists|k2: int|
                                    0 <= k2 < k + 1 && literals(
                                        (#[trigger] implicants@[k2]).bits@,
                                    ) > 0 && term_holds(implicants@[k2].bits@, vars, m) {
                                    let k2 = choose|k2: int|
                                        0 <= k2 < k + 1 && literals(
                                            (#[trigger] implicants@[k2]).bits@,
                                        ) > 0 && term_holds(implicants@[k2].bits@, vars, m);
                                    assert(k2 == k as int);
                                }
                            } else {
                                let acc = prev->Some_0;
                                assert(eval_expr(next, m) == (eval_expr(acc, m) || eval_expr(
                                    term,
                                    m,
                                )));
                                if eval_expr(acc, m) {
                                    let k2 = choose|k2: int|
                                        0 <= k2 < k && literals(
                                            (#[trigger] implicants@[k2]).bits@,
                                        ) > 0 && term_holds(implicants@[k2].bits@, vars, m);
                                    assert(literals(implicants@[k2].bits@) > 0 && term_holds(
                                        implicants@[k2].bits@,
                                        vars,
                                        m,
                                    ));
                                } else if eval_expr(term, m) {
                                    assert(literals(implicants@[k as int].bits@) > 0
                                        && term_holds(implicants@[k as int].bits@, vars, m));
                                }
                                if exists|k2: int|
                                    0 <= k2 < k + 1 && literals(
                                        (#[trigger] implicants@[k2]).bits@,
                                    ) > 0 && term_holds(implicants@[k2].bits@, vars, m) {
                                    let k2 = choose|k2: int|
                                        0 <= k2 < k + 1 && literals(
                                            (#[trigger] implicants@[k2]).bits@,
                                        ) > 0 && term_holds(implicants@[k2].bits@, vars, m);
                                    if k2 < k as int {
                                        assert(eval_expr(acc, m));
                                    } else {
                                        assert(eval_expr(term, m));
                                    }
                                }
                            }
                        }
                    }
                    result = Some(next);
                },
                None => {
                    proof {
                        if result is Some {
                            let ghost acc = result->Some_0;
                            assert forall|m: Map<Seq<char>, bool>| eval_expr(acc, m) == exists|
                                k2: int,
                            |
                                0 <= k2 < k + 1 && literals((#[trigger] implicants@[k2]).bits@)
                                    > 0 && term_holds(implicants@[k2].bits@, vars, m) by {
                                if exists|k2: int|
                                    0 <= k2 < k + 1 && literals(
                                        (#[trigger] implicants@[k2]).bits@,
                                    ) > 0 && term_holds(implicants@[k2].bits@, vars, m) {
                                    let k2 = choose|k2: int|
                                        0 <= k2 < k + 1 && literals(
                                            (#[trigger] implicants@[k2]).bits@,
                                        ) > 0 && term_holds(implicants@[k2].bits@, vars, m);
                                    assert(k2 < k as int);
                                }
                            }
                        }
                    }
                },
            }
            k = k + 1;
        }
        result
    }

    /// Runs the Quine-McCluskey minimization: seed implicants from the
    /// ON-set, prime implicants by iterative combining, a minimal cover, and
    /// the rebuilt sum of products.  An empty ON-set yields the canonical
    /// always-false sentinel; with no variables there is nothing to build.
    /// When the ON-set is neither empty nor full, the result is a two-level
    /// sum of products over the variables realising the ON-set function
    /// exactly.
    pub fn minimize(&self) -> (r: Option<Expr>)
        requires
            self.wf(),
        ensures
            self.minterms@.len() == 0 ==> r is Some && is_contra_sentinel(r->Some_0) && (
            forall|m: Map<Seq<char>, bool>| !eval_expr(r->Some_0, m)),
            r is Some && self.minterms@.len() > 0 ==> (forall|v: Seq<char>|
                expr_vars(r->Some_0).contains(v) ==> self.variables@.contains(v)),
            (self.minterms@.len() > 0 && self.variables@.len() > 0 && (exists|i: u64|
                i < pow2(self.variables@.len() as nat) && !self.minterms@.contains(i)))
                ==> r is Some && is_sum_of_products(r->Some_0, self.variables.as_set()) && (
            forall|m: Map<Seq<char>, bool>|
                eval_expr(r->Some_0, m) <==> self.minterms@.contains(
                    (row_index_of(self.variables@, m) as u64),
                )),
    {
        let ghost n = self.variables@.len() as nat;
        let ghost on = self.minterms@;
        if self.minterms.len() == 0 {
            return Some(make_contra_sentinel());
        }
        let num_vars: usize = self.variables.len();
        if num_vars == 0 {
            return None;
        }

        // seed implicants, one per ON-set minterm
        let mut current_implicants: Vec<Minterm> = Vec::new();
        let mut j: usize = 0;
        while j < self.minterms.len()
            invariant
                self.wf(),
                n == self.variables@.len(),
                on == self.minterms@,
                num_vars == self.variables@.len(),
                0 < num_vars < 64,
                0 <= j <= on.len(),
                current_implicants@.len() == j,
                all_wf(current_implicants@, n, on),
                forall|k: int|
                    0 <= k < j ==> literals((#[trigger] current_implicants@[k]).bits@) == n,
                forall|k: int|
                    0 <= k < j ==> (#[trigger] current_implicants@[k]).covered_minterms@
                        == seq![on[k]],
            decreases on.len() - j,
        {
            let seed = Minterm::new(self.minterms[j], num_vars);
            proof {
                assert(seed.covered_minterms@ == seq![on[j as int]]);
                assert(on.contains(on[j as int]));
                assert forall|c: int| 0 <= c < seed.covered_minterms@.len() implies on.contains(
                    #[trigger] seed.covered_minterms@[c],
                ) by {
                    assert(seed.covered_minterms@[c] == on[j as int]);
                }
            }
            current_implicants.push(seed);
            j = j + 1;
        }
        proof {
            assert forall|jj: int| 0 <= jj < on.len() implies covered_by_some(
                current_implicants@,
                #[trigger] on[jj],
            ) by {
                assert(current_implicants@[jj].covered_minterms@ == seq![on[jj]]);
                assert(current_implicants@[jj].covered_minterms@[0] == on[jj]);
                assert((#[trigger] current_implicants@[jj]).covered_minterms@.contains(on[jj]));
            }
        }

        let prime_implicants = self.find_prime_implicants(current_implicants);
        proof {
            assert forall|jj: int| 0 <= jj < on.len() implies covered_by_some(
                prime_implicants@,
                #[trigger] on[jj],
            ) by {}
        }
        let minimal_cover = self.find_minimal_cover(&prime_implicants);
        let r = self.implicants_to_expression(&minimal_cover);
        proof {
            if self.minterms@.len() > 0 && self.variables@.len() > 0 && (exists|i: u64|
                i < pow2(n) && !on.contains(i)) {
                let i0 = choose|i0: u64| i0 < pow2(n) && !on.contains(i0);
                // no selected implicant is literal-free: one would cover every
                // row, including one outside the ON-set
                assert forall|k: int| 0 <= k < minimal_cover@.len() implies literals(
                    (#[trigger] minimal_cover@[k]).bits@,
                ) > 0 by {
                    if literals(minimal_cover@[k].bits@) == 0 {
                        lemma_no_literals_matches_all(minimal_cover@[k].bits@, i0 as nat);
                        assert(minimal_cover@[k].covered_minterms@.contains(i0));
                        let c = choose|c: int|
                            0 <= c < minimal_cover@[k].covered_minterms@.len()
                                && minimal_cover@[k].covered_minterms@[c] == i0;
                        assert(on.contains(minimal_cover@[k].covered_minterms@[c]));
                    }
                }
                if r is None {
                    assert(covered_by_some(minimal_cover@, on[0]));
                    let k = choose|k: int|
                        0 <= k < minimal_cover@.len() && (#[trigger] minimal_cover@[k]).covered_minterms@.contains(
                            on[0],
                        );
                    assert(literals(minimal_cover@[k].bits@) == 0);
                    assert(false);
                }
                let t = r->Some_0;
                assert forall|m: Map<Seq<char>, bool>| eval_expr(t, m) <==> on.contains(
                    (row_index_of(self.variables@, m) as u64),
                ) by {
                    let i = row_index_of(self.variables@, m);
                    lemma_row_u64(self.variables@, m);
                    let iu = i as u64;
                    assert((iu as nat) == i);
                    if eval_expr(t, m) {
                        let k = choose|k: int|
                            0 <= k < minimal_cover@.len() && literals(
                                (#[trigger] minimal_cover@[k]).bits@,
                            ) > 0 && term_holds(minimal_cover@[k].bits@, self.variables@, m);
                        lemma_term_vs_match(minimal_cover@[k].bits@, self.variables@, m);
                        assert(bits_match(minimal_cover@[k].bits@, i));
                        assert(minimal_cover@[k].covered_minterms@.contains(iu));
                        let c = choose|c: int|
                            0 <= c < minimal_cover@[k].covered_minterms@.len()
                                && minimal_cover@[k].covered_minterms@[c] == iu;
                        assert(on.contains(minimal_cover@[k].covered_minterms@[c]));
                    }
                    if on.contains(iu) {
                        let jj = choose|jj: int| 0 <= jj < on.len() && on[jj] == iu;
                        assert(covered_by_some(minimal_cover@, on[jj]));
                        let k = choose|k: int|
                            0 <= k < minimal_cover@.len() && (#[trigger] minimal_cover@[k]).covered_minterms@.contains(
                                iu,
                            );
                        assert(bits_match(minimal_cover@[k].bits@, iu as nat));
                        lemma_term_vs_match(minimal_cover@[k].bits@, self.variables@, m);
                        assert(term_holds(minimal_cover@[k].bits@, self.variables@, m));
                        assert(literals(minimal_cover@[k].bits@) > 0);
                        assert(eval_expr(t, m));
                    }
                }
            }
        }
        r
    }
}

/// Always true: every assignment satisfies the expression.  An expression
/// whose variables fail validation is neither a tautology nor a
/// contradiction.
pub open spec fn taut_spec(e: Expr) -> bool {
    collect_vars(e) is Ok && forall|m: Map<Seq<char>, bool>| eval_expr(e, m)
}

/// Always false: no assignment satisfies the expression.
pub open spec fn contra_spec(e: Expr) -> bool {
    collect_vars(e) is Ok && forall|m: Map<Seq<char>, bool>| !eval_expr(e, m)
}

/// Decides whether the expression is true under every assignment, by direct
/// enumeration of its rows.
fn is_tautology(expr: &Expr) -> (r: bool)
    ensures
        r == taut_spec(*expr),
{
    let variables = match Variables::from_expr(expr) {
        Ok(v) => v,
        Err(e) => {
            return false;
        },
    };
    let num_vars: usize = variables.len();
    if num_vars == 0 {
        proof {
            lemma_expr_vars_nonempty(*expr);
            let v = choose|v: Seq<char>| expr_vars(*expr).contains(v);
            assert(variables.as_set().contains(v));
            assert(variables@.contains(v));
        }
        return false;
    }
    let count: u64 = pow2_u64(num_vars);
    let mut i: u64 = 0;
    while i < count
        invariant
            variables.wf(),
            variables@.len() == num_vars < 64,
            variables.as_set() == expr_vars(*expr),
            collect_vars(*expr) is Ok,
            count == pow2(num_vars as nat),
            0 <= i <= count,
            forall|j: u64| j < i ==> eval_expr(*expr, #[trigger] map_of_row(variables@, j as nat)),
        decreases count - i,
    {
        let assignments = row_assignment(&variables, i);
        if !evaluate_expression(expr, &assignments) {
            proof {
                assert(!eval_expr(*expr, map_of_row(variables@, i as nat)));
            }
            return false;
        }
        i = i + 1;
    }
    proof {
        lemma_sorted_no_duplicates(variables@);
        assert forall|m: Map<Seq<char>, bool>| eval_expr(*expr, m) by {
            assert forall|v: Seq<char>| expr_vars(*expr).contains(v) implies variables@.contains(
                v,
            ) by {
                assert(variables.as_set().contains(v));
            }
            lemma_eval_canonical(*expr, variables@, m);
            let j = row_index_of(variables@, m);
            assert(eval_expr(*expr, map_of_row(variables@, j)));
        }
    }
    true
}

/// Decides whether the expression is false under every assignment, by
/// direct enumeration of its rows.
fn is_contradiction(expr: &Expr) -> (r: bool)
    ensures
        r == contra_spec(*expr),
{
    let variables = match Variables::from_expr(expr) {
        Ok(v) => v,
        Err(e) => {
            return false;
        },
    };
    let num_vars: usize = variables.len();
    if num_vars == 0 {
        proof {
            lemma_expr_vars_nonempty(*expr);
            let v = choose|v: Seq<char>| expr_vars(*expr).contains(v);
            assert(variables.as_set().contains(v));
            assert(variables@.contains(v));
        }
        return false;
    }
    let count: u64 = pow2_u64(num_vars);
    let mut i: u64 = 0;
    while i < count
        invariant
            variables.wf(),
            variables@.len() == num_vars < 64,
            variables.as_set() == expr_vars(*expr),
            collect_vars(*expr) is Ok,
            count == pow2(num_vars as nat),
            0 <= i <= count,
            forall|j: u64|
                j < i ==> !eval_expr(*expr, #[trigger] map_of_row(variables@, j as nat)),
        decreases count - i,
    {
        let assignments = row_assignment(&variables, i);
        if evaluate_expression(expr, &assignments) {
            proof {
                assert(eval_expr(*expr, map_of_row(variables@, i as nat)));
            }
            return false;
        }
        i = i + 1;
    }
    proof {
        lemma_sorted_no_duplicates(variables@);
        assert forall|m: Map<Seq<char>, bool>| !eval_expr(*expr, m) by {
            assert forall|v: Seq<char>| expr_vars(*expr).contains(v) implies variables@.contains(
                v,
            ) by {
                assert(variables.as_set().contains(v));
            }
            lemma_eval_canonical(*expr, variables@, m);
            let j = row_index_of(variables@, m);
            assert(!eval_expr(*expr, map_of_row(variables@, j)));
        }
    }
    true
}

/// Reduces an expression.  A tautology becomes the `(true \u{2228}
/// \u{00ac}true)` sentinel and a contradiction the `(false \u{2227}
/// \u{00ac}false)` sentinel; anything else runs the minimizer, yielding a
/// two-level sum of products over the expression's variables, and
/// `simplified` records whether the result differs structurally (up to
/// commuted operands) from the original.  The reduced tree is always
/// logically equivalent to the original.
pub fn reduce_expression(expr: &Expr) -> (r: Result<Reduction, EvaluationError>)
    ensures
        match r {
            Ok(red) => {
                &&& collect_vars(*expr) is Ok
                &&& red.original == *expr
                &&& equivalent_exprs(*expr, red.reduced)
                &&& (taut_spec(*expr) ==> is_taut_sentinel(red.reduced) && red.simplified)
                &&& (contra_spec(*expr) ==> is_contra_sentinel(red.reduced) && red.simplified)
                &&& (!taut_spec(*expr) && !contra_spec(*expr) ==> red.simplified == !struct_equiv(
                    *expr,
                    red.reduced,
                ))
                &&& (!taut_spec(*expr) && !contra_spec(*expr) ==> is_sum_of_products(
                    red.reduced,
                    expr_vars(*expr),
                ))
            },
            Err(e) => collect_vars(*expr) is Err && matches_collect_err(collect_vars(*expr), e),
        },
{
    if is_tautology(expr) {
        let true_expr = make_taut_sentinel();
        proof {
            assert(!contra_spec(*expr)) by {
                if contra_spec(*expr) {
                    let m0 = Map::<Seq<char>, bool>::empty();
                    assert(eval_expr(*expr, m0));
                    assert(!eval_expr(*expr, m0));
                }
            }
            assert forall|m: Map<Seq<char>, bool>| eval_expr(*expr, m) == eval_expr(
                true_expr,
                m,
            ) by {}
        }
        return Ok(
            Reduction { original: expr.duplicate(), reduced: true_expr, simplified: true },
        );
    }
    if is_contradiction(expr) {
        let false_expr = make_contra_sentinel();
        proof {
            assert forall|m: Map<Seq<char>, bool>| eval_expr(*expr, m) == eval_expr(
                false_expr,
                m,
            ) by {}
        }
        return Ok(
            Reduction { original: expr.duplicate(), reduced: false_expr, simplified: true },
        );
    }
    match QuineMcCluskey::from_expression(expr) {
        Ok(qm) => {
            proof {
                // the ON-set is neither empty nor full: the expression is
                // neither a contradiction nor a tautology
                lemma_expr_vars_nonempty(*expr);
                let v = choose|v: Seq<char>| expr_vars(*expr).contains(v);
                assert(qm.variables.as_set().contains(v));
                assert(qm.variables@.contains(v));
                assert(qm.variables@.len() > 0);
                lemma_sorted_no_duplicates(qm.variables@);
                assert forall|v2: Seq<char>|
                    expr_vars(*expr).contains(v2) implies qm.variables@.contains(v2) by {
                    assert(qm.variables.as_set().contains(v2));
                }
                // not a contradiction: some assignment satisfies it
                let m1 = choose|m1: Map<Seq<char>, bool>| eval_expr(*expr, m1);
                lemma_eval_canonical(*expr, qm.variables@, m1);
                lemma_row_u64(qm.variables@, m1);
                let i1 = row_index_of(qm.variables@, m1);
                assert(((i1 as u64) as nat) == i1);
                assert(eval_expr(*expr, map_of_row(qm.variables@, (i1 as u64) as nat)));
                assert(qm.minterms@.contains(i1 as u64));
                assert(qm.minterms@.len() > 0);
                // not a tautology: some assignment falsifies it
                let m0 = choose|m0: Map<Seq<char>, bool>| !eval_expr(*expr, m0);
                lemma_eval_canonical(*expr, qm.variables@, m0);
                lemma_row_u64(qm.variables@, m0);
                let i0 = row_index_of(qm.variables@, m0);
                assert(((i0 as u64) as nat) == i0);
                assert(!eval_expr(*expr, map_of_row(qm.variables@, (i0 as u64) as nat)));
                assert(!qm.minterms@.contains(i0 as u64));
                assert((i0 as u64) < pow2(qm.variables@.len() as nat));
            }
            let reduced_opt = qm.minimize();
            match reduced_opt {
                Some(reduced_expr) => {
                    proof {
                        assert forall|m: Map<Seq<char>, bool>| eval_expr(*expr, m) == eval_expr(
                            reduced_expr,
                            m,
                        ) by {
                            lemma_eval_canonical(*expr, qm.variables@, m);
                            lemma_row_u64(qm.variables@, m);
                            let i = row_index_of(qm.variables@, m);
                            assert(((i as u64) as nat) == i);
                            assert(eval_expr(reduced_expr, m) <==> qm.minterms@.contains(
                                i as u64,
                            ));
                            assert(qm.minterms@.contains(i as u64) <==> eval_expr(
                                *expr,
                                map_of_row(qm.variables@, (i as u64) as nat),
                            ));
                        }
                    }
                    let simplified = !expressions_equivalent_structure(expr, &reduced_expr);
                    Ok(
                        Reduction {
                            original: expr.duplicate(),
                            reduced: reduced_expr,
                            simplified,
                        },
                    )
                },
                None => {
                    // never reached: the ON-set is neither empty nor full
                    // here, so the minimizer always hands a tree back
                    proof {
                        assert(false);
                    }
                    Ok(
                        Reduction {
                            original: expr.duplicate(),
                            reduced: expr.duplicate(),
                            simplified: false,
                        },
                    )
                },
            }
        },
        Err(e) => Err(e),
    }
}

/// Copies a vector of row indices.
fn copy_u64_vec(v: &Vec<u64>) -> (r: Vec<u64>)
    ensures
        r@ == v@,
{
    let mut r: Vec<u64> = Vec::new();
    let mut i: usize = 0;
    while i < v.len()
        invariant
            0 <= i <= v@.len(),
            r@ == v@.take(i as int),
        decreases v@.len() - i,
    {
        r.push(v[i]);
        proof {
            assert(r@ =~= v@.take(i as int + 1));
        }
        i = i + 1;
    }
    proof {
        assert(v@.take(v@.len() as int) =~= v@);
    }
    r
}

/// Copies a literal vector.
fn copy_bits_vec(v: &Vec<Option<bool>>) -> (r: Vec<Option<bool>>)
    ensures
        r@ == v@,
{
    let mut r: Vec<Option<bool>> = Vec::new();
    let mut i: usize = 0;
    while i < v.len()
        invariant
            0 <= i <= v@.len(),
            r@ == v@.take(i as int),
        decreases v@.len() - i,
    {
        r.push(v[i]);
        proof {
            assert(r@ =~= v@.take(i as int + 1));
        }
        i = i + 1;
    }
    proof {
        assert(v@.take(v@.len() as int) =~= v@);
    }
    r
}

/// Whether a vector holds a row index.
fn contains_u64(v: &Vec<u64>, x: u64) -> (r: bool)
    ensures
        r == v@.contains(x),
{
    let mut i: usize = 0;
    while i < v.len()
        invariant
            0 <= i <= v@.len(),
            forall|k: int| 0 <= k < i ==> v@[k] != x,
        decreases v@.len() - i,
    {
        if v[i] == x {
            return true;
        }
        i = i + 1;
    }
    proof {
        if v@.contains(x) {
            let k = choose|k: int| 0 <= k < v@.len() && v@[k] == x;
        }
    }
    false
}

/// Inserts a row index into a sorted vector, unless it is already there.
fn insert_sorted_u64(v: &mut Vec<u64>, x: u64)
    requires
        sorted_u64(old(v)@),
    ensures
        sorted_u64(final(v)@),
        forall|y: u64|
            #[trigger] final(v)@.contains(y) <==> (old(v)@.contains(y) || y == x),
{
    let mut pos: usize = 0;
    while pos < v.len() && v[pos] < x
        invariant
            sorted_u64(v@),
            v@ == old(v)@,
            0 <= pos <= v@.len(),
            forall|k: int| 0 <= k < pos ==> v@[k] < x,
        decreases v@.len() - pos,
    {
        pos = pos + 1;
    }
    if pos < v.len() && v[pos] == x {
        proof {
            assert(v@[pos as int] == x);
            assert(v@.contains(x));
        }
        return ;
    }
    let ghost pre = v@;
    v.insert(pos, x);
    proof {
        assert(v@ =~= pre.insert(pos as int, x));
        assert forall|i: int, j: int| 0 <= i < j < v@.len() implies v@[i] < v@[j] by {
            let pp = pos as int;
            if i < pp && j == pp {
            } else if i == pp && j > pp {
                assert(v@[j] == pre[j - 1]);
                assert(pre[j - 1] >= pre[pp]);
            } else if i < pp && j > pp {
                assert(v@[j] == pre[j - 1]);
            } else if i > pp && j > pp {
                assert(v@[i] == pre[i - 1] && v@[j] == pre[j - 1]);
            }
        }
        assert forall|y: u64| #[trigger] v@.contains(y) implies (pre.contains(y) || y == x) by {
            let k = choose|k: int| 0 <= k < v@.len() && v@[k] == y;
            if k < pos as int {
                assert(pre[k] == y);
            } else if k > pos as int {
                assert(pre[k - 1] == y);
            }
        }
        assert forall|y: u64| (pre.contains(y) || y == x) implies #[trigger] v@.contains(y) by {
            if pre.contains(y) {
                let k = choose|k: int| 0 <= k < pre.len() && pre[k] == y;
                if k < pos as int {
                    assert(v@[k] == y);
                } else {
                    assert(v@[k + 1] == y);
                }
            } else {
                assert(v@[pos as int] == y);
            }
        }
    }
}

} // verus!
