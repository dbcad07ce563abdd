//! The evaluation and minimization engine.
//!
//! The semantic reference for every contract in this crate is [`eval_expr`]:
//! the value of an expression under a (possibly partial) assignment, where a
//! variable missing from the assignment reads as `false`.

pub mod equivalence;
pub mod reduction;
pub mod truth_table;

use vstd::prelude::*;
use crate::config::{MAX_VARIABLES, MAX_VARIABLE_NAME_LENGTH};
use crate::source::parser::Expr;
use crate::text::{
    is_alnum, lemma_lex_total, lemma_lex_trans, lemma_sorted_no_duplicates, lex_lt, sorted_strict,
    str_eq, str_lt,
};

pub use equivalence::{EquivalenceCheck, EquivalenceDifference};
pub use reduction::Reduction;
pub use truth_table::{TruthTable, TruthTableBuilder, TruthTableRow};

verus! {

/// Errors that evaluation can raise.  Only the first two are ever produced by
/// the engine; both come from variable validation, never mid-algorithm.
#[derive(Debug, Clone)]
pub enum EvaluationError {
    TooManyVariables { count: usize, max: usize },
    InvalidVariableName(String),
    ExpressionTooComplex { reason: String },
    ReductionTimeout { max_iterations: usize },
    UnsupportedOperation { operation: String },
    EmptyExpression,
    InvalidTruthAssignment { variable: String, context: String },
}

/// Why variable collection fails, stated over the mathematical model.
pub enum CollectError {
    InvalidName(Seq<char>),
    TooMany(int),
}

/// A character that may occur in a variable name.
pub open spec fn is_word_char(c: char) -> bool {
    is_alnum(c) || c == '_'
}

/// A valid variable name: nonempty, at most `MAX_VARIABLE_NAME_LENGTH`
/// characters, alphanumeric or underscore throughout.
pub open spec fn valid_name(s: Seq<char>) -> bool {
    &&& 0 < s.len() <= MAX_VARIABLE_NAME_LENGTH
    &&& forall|i: int| 0 <= i < s.len() ==> is_word_char(#[trigger] s[i])
}

/// The set of variable names that occur in an expression.
pub open spec fn expr_vars(e: Expr) -> Set<Seq<char>>
    decreases e,
{
    match e {
        Expr::Identifier(name) => Set::empty().insert(name@),
        Expr::Not(inner) => expr_vars(*inner),
        Expr::And(l, r) => expr_vars(*l).union(expr_vars(*r)),
        Expr::Or(l, r) => expr_vars(*l).union(expr_vars(*r)),
        Expr::Xor(l, r) => expr_vars(*l).union(expr_vars(*r)),
        Expr::Implication(l, r) => expr_vars(*l).union(expr_vars(*r)),
    }
}

/// The value of a name under an assignment; a missing name reads as `false`.
pub open spec fn lookup(m: Map<Seq<char>, bool>, name: Seq<char>) -> bool {
    m.contains_key(name) && m[name]
}

/// The value of an expression under an assignment.
pub open spec fn eval_expr(e: Expr, m: Map<Seq<char>, bool>) -> bool
    decreases e,
{
    match e {
        Expr::Identifier(name) => lookup(m, name@),
        Expr::Not(inner) => !eval_expr(*inner, m),
        Expr::And(l, r) => eval_expr(*l, m) && eval_expr(*r, m),
        Expr::Or(l, r) => eval_expr(*l, m) || eval_expr(*r, m),
        Expr::Xor(l, r) => eval_expr(*l, m) != eval_expr(*r, m),
        Expr::Implication(l, r) => !eval_expr(*l, m) || eval_expr(*r, m),
    }
}

/// Two expressions are equivalent when they evaluate alike under every
/// assignment.
pub open spec fn equivalent_exprs(l: Expr, r: Expr) -> bool {
    forall|m: Map<Seq<char>, bool>| eval_expr(l, m) == eval_expr(r, m)
}

/// Pre-order collection of the variables of `e` into the accumulator `acc`:
/// each identifier is validated before insertion, and the count is checked
/// right after each insertion, so the traversal stops at the first offence.
pub open spec fn collect_from(e: Expr, acc: Set<Seq<char>>) -> Result<
    Set<Seq<char>>,
    CollectError,
>
    decreases e,
{
    match e {
        Expr::Identifier(name) => {
            if !valid_name(name@) {
                Err(CollectError::InvalidName(name@))
            } else {
                let acc2 = acc.insert(name@);
                if acc2.len() > MAX_VARIABLES {
                    Err(CollectError::TooMany(acc2.len() as int))
                } else {
                    Ok(acc2)
                }
            }
        },
        Expr::Not(inner) => collect_from(*inner, acc),
        Expr::And(l, r) => match collect_from(*l, acc) {
            Ok(a2) => collect_from(*r, a2),
            Err(err) => Err(err),
        },
        Expr::Or(l, r) => match collect_from(*l, acc) {
            Ok(a2) => collect_from(*r, a2),
            Err(err) => Err(err),
        },
        Expr::Xor(l, r) => match collect_from(*l, acc) {
            Ok(a2) => collect_from(*r, a2),
            Err(err) => Err(err),
        },
        Expr::Implication(l, r) => match collect_from(*l, acc) {
            Ok(a2) => collect_from(*r, a2),
            Err(err) => Err(err),
        },
    }
}

/// Collection over the whole tree, starting from the empty set.
pub open spec fn collect_vars(e: Expr) -> Result<Set<Seq<char>>, CollectError> {
    collect_from(e, Set::empty())
}

/// The exec error that corresponds to a collection failure.
pub open spec fn matches_collect_err(c: Result<Set<Seq<char>>, CollectError>, e: EvaluationError) -> bool {
    match c {
        Ok(_) => false,
        Err(CollectError::InvalidName(n)) => e matches EvaluationError::InvalidVariableName(s)
            && s@ == n,
        Err(CollectError::TooMany(c)) => e matches EvaluationError::TooManyVariables {
            count,
            max,
        } && count == c && max == MAX_VARIABLES,
    }
}

/// What a successful collection yields: the accumulator joined with the
/// variables of the tree, every name valid, and the count within the cap.
pub proof fn lemma_collect_ok(e: Expr, acc: Set<Seq<char>>)
    requires
        acc.finite(),
        collect_from(e, acc) is Ok,
    ensures
        collect_from(e, acc)->Ok_0 == acc.union(expr_vars(e)),
        collect_from(e, acc)->Ok_0.finite(),
        collect_from(e, acc)->Ok_0.len() <= MAX_VARIABLES,
        forall|v: Seq<char>| expr_vars(e).contains(v) ==> valid_name(v),
        acc.len() <= collect_from(e, acc)->Ok_0.len(),
    decreases e,
{
    match e {
        Expr::Identifier(name) => {
            assert(collect_from(e, acc)->Ok_0 =~= acc.union(expr_vars(e)));
            vstd::set_lib::lemma_len_subset(acc, acc.insert(name@));
        },
        Expr::Not(inner) => {
            lemma_collect_ok(*inner, acc);
        },
        Expr::And(l, r) => {
            lemma_collect_ok(*l, acc);
            lemma_collect_ok(*r, collect_from(*l, acc)->Ok_0);
            assert(collect_from(e, acc)->Ok_0 =~= acc.union(expr_vars(e)));
        },
        Expr::Or(l, r) => {
            lemma_collect_ok(*l, acc);
            lemma_collect_ok(*r, collect_from(*l, acc)->Ok_0);
            assert(collect_from(e, acc)->Ok_0 =~= acc.union(expr_vars(e)));
        },
        Expr::Xor(l, r) => {
            lemma_collect_ok(*l, acc);
            lemma_collect_ok(*r, collect_from(*l, acc)->Ok_0);
            assert(collect_from(e, acc)->Ok_0 =~= acc.union(expr_vars(e)));
        },
        Expr::Implication(l, r) => {
            lemma_collect_ok(*l, acc);
            lemma_collect_ok(*r, collect_from(*l, acc)->Ok_0);
            assert(collect_from(e, acc)->Ok_0 =~= acc.union(expr_vars(e)));
        },
    }
}

/// A sorted, duplicate-free collection of validated variable names.  The sort
/// order is the canonical bit-position mapping used everywhere: the variable
/// at sorted position `p` owns bit `p` of a row index.
#[derive(Debug, Clone, PartialEq)]
pub struct Variables {
    pub names: Vec<String>,
}

/// The character sequences of a sequence of strings.
pub open spec fn names_view(s: Seq<String>) -> Seq<Seq<char>> {
    s.map_values(|x: String| x@)
}

impl View for Variables {
    type V = Seq<Seq<char>>;

    open spec fn view(&self) -> Seq<Seq<char>> {
        names_view(self.names@)
    }
}

impl Variables {
    /// Names are strictly sorted (hence distinct) and all valid.
    pub open spec fn wf(&self) -> bool {
        &&& sorted_strict(self@)
        &&& forall|i: int| 0 <= i < self@.len() ==> valid_name(#[trigger] self@[i])
    }

    /// The set of names held.
    pub open spec fn as_set(&self) -> Set<Seq<char>> {
        self@.to_set()
    }

    pub fn new() -> (r: Self)
        ensures
            r.wf(),
            r@ == Seq::<Seq<char>>::empty(),
            r.as_set() == Set::<Seq<char>>::empty(),
    {
        let r = Self { names: Vec::new() };
        proof {
            assert(r@ =~= Seq::<Seq<char>>::empty());
            assert(r.as_set() =~= Set::<Seq<char>>::empty());
        }
        r
    }

    pub fn len(&self) -> (r: usize)
        ensures
            r == self@.len(),
    {
        self.names.len()
    }

    pub fn is_empty(&self) -> (r: bool)
        ensures
            r == (self@.len() == 0),
    {
        self.names.len() == 0
    }

    /// The name at sorted position `i`.
    pub fn name_at(&self, i: usize) -> (r: &String)
        requires
            i < self@.len(),
        ensures
            r@ == self@[i as int],
    {
        &self.names[i]
    }

    pub fn contains(&self, name: &str) -> (r: bool)
        ensures
            r == self.as_set().contains(name@),
    {
        let mut i: usize = 0;
        while i < self.names.len()
            invariant
                0 <= i <= self@.len(),
                forall|k: int| 0 <= k < i ==> self@[k] != name@,
            decreases self@.len() - i,
        {
            if str_eq(self.names[i].as_str(), name) {
                assert(self@[i as int] == name@);
                return true;
            }
            i = i + 1;
        }
        proof {
            if self.as_set().contains(name@) {
                assert(self@.contains(name@));
            }
        }
        false
    }

    /// The sorted names as a vector.
    pub fn to_vec(&self) -> (r: Vec<String>)
        ensures
            names_view(r@) == self@,
    {
        let mut r: Vec<String> = Vec::new();
        let mut i: usize = 0;
        while i < self.names.len()
            invariant
                0 <= i <= self@.len(),
                names_view(r@) =~= self@.take(i as int),
            decreases self@.len() - i,
        {
            let ghost pre = r@;
            let nm = self.names[i].clone();
            proof {
                assert(nm@ == self@[i as int]);
            }
            r.push(nm);
            proof {
                assert(names_view(pre).len() == pre.len());
                assert(pre.len() == i as int);
                assert(r@ == pre.push(nm));
                assert forall|k: int| 0 <= k < r@.len() implies names_view(r@)[k] == self@.take(
                    i as int + 1,
                )[k] by {
                    if k < i as int {
                        assert(names_view(pre)[k] == self@.take(i as int)[k]);
                        assert(r@[k] == pre[k]);
                    } else {
                        assert(r@[k] == nm);
                    }
                }
                assert(names_view(r@) =~= self@.take(i as int + 1));
            }
            i = i + 1;
        }
        proof {
            assert(self@.take(self@.len() as int) =~= self@);
        }
        r
    }

    /// Inserts a name, keeping the sorted order; a name already present is
    /// left alone.  Does not enforce the cap: the caller checks it.
    fn insert_name(&mut self, name: &String)
        requires
            sorted_strict(old(self)@),
            forall|i: int| 0 <= i < old(self)@.len() ==> valid_name(#[trigger] old(self)@[i]),
            valid_name(name@),
        ensures
            sorted_strict(final(self)@),
            forall|i: int| 0 <= i < final(self)@.len() ==> valid_name(#[trigger] final(self)@[i]),
            final(self).as_set() == old(self).as_set().insert(name@),
            final(self)@.len() == old(self)@.len() + (if old(self).as_set().contains(name@) {
                0int
            } else {
                1int
            }),
    {
        let ghost old_view = self@;
        let mut pos: usize = 0;
        while pos < self.names.len() && str_lt(self.names[pos].as_str(), name.as_str())
            invariant
                0 <= pos <= self@.len(),
                self@ == old_view,
                self.names == old(self).names,
                forall|k: int| 0 <= k < pos ==> lex_lt(#[trigger] self@[k], name@),
            decreases self@.len() - pos,
        {
            pos = pos + 1;
        }
        if pos < self.names.len() && str_eq(self.names[pos].as_str(), name.as_str()) {
            proof {
                assert(self@[pos as int] == name@);
                assert(self@.contains(name@));
                assert(self.as_set() =~= old(self).as_set().insert(name@));
            }
            return ;
        }
        proof {
            // name is not present: everything before pos is smaller, and
            // everything from pos on is larger
            if pos < self@.len() {
                lemma_lex_total(self@[pos as int], name@);
            }
            assert(forall|k: int| pos <= k < self@.len() ==> lex_lt(name@, #[trigger] self@[k]))
                by {
                assert forall|k: int| pos <= k < self@.len() implies lex_lt(
                    name@,
                    #[trigger] self@[k],
                ) by {
                    lemma_lex_total(self@[pos as int], name@);
                    if k > pos {
                        lemma_lex_trans(name@, self@[pos as int], self@[k]);
                    }
                }
            }
            assert(!self@.contains(name@)) by {
                if self@.contains(name@) {
                    let k = choose|k: int| 0 <= k < self@.len() && self@[k] == name@;
                    if k < pos {
                        lemma_lex_total(self@[k], name@);
                    } else {
                        lemma_lex_total(name@, self@[k]);
                    }
                }
            }
        }
        let ghost pre = self@;
        self.names.insert(pos, name.clone());
        proof {
            assert(self@ =~= pre.insert(pos as int, name@)) by {
                assert(self.names@ == old(self).names@.insert(pos as int, *name));
                assert forall|i: int| 0 <= i < self@.len() implies self@[i] == pre.insert(
                    pos as int,
                    name@,
                )[i] by {}
            }
            // sortedness of the new sequence
            assert forall|i: int, j: int| 0 <= i < j < self@.len() implies lex_lt(
                self@[i],
                self@[j],
            ) by {}
            assert(self@.to_set() =~= pre.to_set().insert(name@)) by {
                assert forall|x: Seq<char>| self@.to_set().contains(x) implies pre.to_set().insert(
                    name@,
                ).contains(x) by {
                    let i = choose|i: int| 0 <= i < self@.len() && self@[i] == x;
                    if i != pos as int {
                        if i < pos as int {
                            assert(pre[i] == x);
                        } else {
                            assert(pre[i - 1] == x);
                        }
                        assert(pre.contains(x));
                    }
                }
                assert forall|x: Seq<char>| pre.to_set().insert(name@).contains(x) implies self@
                    .to_set().contains(x) by {
                    if x == name@ {
                        assert(self@[pos as int] == x);
                    } else {
                        let i = choose|i: int| 0 <= i < pre.len() && pre[i] == x;
                        if i < pos as int {
                            assert(self@[i] == x);
                        } else {
                            assert(self@[i + 1] == x);
                        }
                    }
                }
            }
            // cardinality
            lemma_sorted_no_duplicates(pre);
            pre.unique_seq_to_set();
            lemma_sorted_no_duplicates(self@);
            self@.unique_seq_to_set();
        }
    }

    /// True when the name may stand for a variable.
    fn check_name(name: &String) -> (r: bool)
        ensures
            r == valid_name(name@),
    {
        let chars: Vec<char> = crate::text::str_chars(name.as_str());
        if chars.len() == 0 || chars.len() > MAX_VARIABLE_NAME_LENGTH {
            return false;
        }
        let mut i: usize = 0;
        while i < chars.len()
            invariant
                0 <= i <= chars@.len(),
                chars@ == name@,
                forall|k: int| 0 <= k < i ==> is_word_char(#[trigger] name@[k]),
            decreases chars@.len() - i,
        {
            let c = chars[i];
            if !(crate::text::char_is_alphanumeric(c) || c == '_') {
                return false;
            }
            i = i + 1;
        }
        true
    }

    /// Walks the tree in pre-order, validating and inserting each identifier;
    /// stops at the first invalid name or at the first count overrun.
    fn collect_from_expr(&mut self, expr: &Expr) -> (r: Result<(), EvaluationError>)
        requires
            old(self).wf(),
            old(self)@.len() <= MAX_VARIABLES,
        ensures
            final(self).wf(),
            match r {
                Ok(u) => collect_from(*expr, old(self).as_set()) == Ok::<_, CollectError>(
                    final(self).as_set(),
                ) && final(self)@.len() <= MAX_VARIABLES,
                Err(e) => collect_from(*expr, old(self).as_set()) is Err && matches_collect_err(
                    collect_from(*expr, old(self).as_set()),
                    e,
                ),
            },
        decreases *expr,
    {
        proof {
            lemma_sorted_no_duplicates(self@);
            self@.unique_seq_to_set();
        }
        match expr {
            Expr::Identifier(name) => {
                if !Self::check_name(name) {
                    return Err(EvaluationError::InvalidVariableName(name.clone()));
                }
                self.insert_name(name);
                proof {
                    lemma_sorted_no_duplicates(self@);
                    self@.unique_seq_to_set();
                }
                if self.names.len() > MAX_VARIABLES {
                    return Err(EvaluationError::TooManyVariables {
                        count: self.names.len(),
                        max: MAX_VARIABLES,
                    });
                }
                Ok(())
            },
            Expr::Not(inner) => self.collect_from_expr(inner),
            Expr::And(l, r) => {
                match self.collect_from_expr(l) {
                    Ok(u) => self.collect_from_expr(r),
                    Err(e) => Err(e),
                }
            },
            Expr::Or(l, r) => {
                match self.collect_from_expr(l) {
                    Ok(u) => self.collect_from_expr(r),
                    Err(e) => Err(e),
                }
            },
            Expr::Xor(l, r) => {
                match self.collect_from_expr(l) {
                    Ok(u) => self.collect_from_expr(r),
                    Err(e) => Err(e),
                }
            },
            Expr::Implication(l, r) => {
                match self.collect_from_expr(l) {
                    Ok(u) => self.collect_from_expr(r),
                    Err(e) => Err(e),
                }
            },
        }
    }

    /// Collects, validates and sorts the variables of an expression.
    pub fn from_expr(expr: &Expr) -> (r: Result<Variables, EvaluationError>)
        ensures
            match r {
                Ok(v) => {
                    &&& v.wf()
                    &&& v@.len() <= MAX_VARIABLES
                    &&& collect_vars(*expr) == Ok::<_, CollectError>(v.as_set())
                    &&& v.as_set() == expr_vars(*expr)
                    &&& forall|x: Seq<char>| expr_vars(*expr).contains(x) ==> valid_name(x)
                },
                Err(e) => collect_vars(*expr) is Err && matches_collect_err(
                    collect_vars(*expr),
                    e,
                ),
            },
    {
        let mut vars = Self::new();
        match vars.collect_from_expr(expr) {
            Ok(u) => {
                proof {
                    lemma_collect_ok(*expr, Set::empty());
                    assert(Set::empty().union(expr_vars(*expr)) =~= expr_vars(*expr));
                }
                Ok(vars)
            },
            Err(e) => Err(e),
        }
    }

    /// The sorted union of two variable collections.
    pub fn union(&self, other: &Variables) -> (r: Variables)
        requires
            self.wf(),
            other.wf(),
        ensures
            r.wf(),
            r.as_set() == self.as_set().union(other.as_set()),
            r@.len() <= self@.len() + other@.len(),
    {
        let mut r = Variables { names: self.to_vec() };
        proof {
            assert(r@ == self@);
            lemma_sorted_no_duplicates(r@);
            r@.unique_seq_to_set();
            lemma_sorted_no_duplicates(self@);
            self@.unique_seq_to_set();
        }
        let mut i: usize = 0;
        while i < other.names.len()
            invariant
                0 <= i <= other@.len(),
                other.wf(),
                self.wf(),
                sorted_strict(r@),
                forall|k: int| 0 <= k < r@.len() ==> valid_name(#[trigger] r@[k]),
                r.as_set() == self.as_set().union(other@.take(i as int).to_set()),
                r@.len() <= self@.len() + i,
            decreases other@.len() - i,
        {
            let ghost pre_set = r.as_set();
            proof {
                assert(valid_name(other@[i as int]));
            }
            r.insert_name(&other.names[i]);
            proof {
                assert(other@.take(i as int + 1) =~= other@.take(i as int).push(other@[i as int]));
                assert(other@.take(i as int).push(other@[i as int]).to_set() =~= other@.take(
                    i as int,
                ).to_set().insert(other@[i as int])) by {
                    broadcast use vstd::seq_lib::group_seq_properties;

                }
                assert(r.as_set() =~= self.as_set().union(other@.take(i as int + 1).to_set()));
            }
            i = i + 1;
        }
        proof {
            assert(other@.take(other@.len() as int) =~= other@);
        }
        r
    }
}

impl Default for Variables {
    /// An empty collection.
    fn default() -> (r: Self)
        ensures
            r.wf(),
            r@ == Seq::<Seq<char>>::empty(),
    {
        Variables::new()
    }
}

/// The assignment map a sequence of (name, value) pairs stands for; a later
/// pair would win, though a well-formed assignment never repeats a name.
pub open spec fn pairs_to_map(s: Seq<(String, bool)>) -> Map<Seq<char>, bool>
    decreases s.len(),
{
    if s.len() == 0 {
        Map::empty()
    } else {
        pairs_to_map(s.drop_last()).insert(s.last().0@, s.last().1)
    }
}

/// A key sits in the map exactly when some pair holds it.
pub proof fn lemma_pairs_map_keys(s: Seq<(String, bool)>, k: Seq<char>)
    ensures
        pairs_to_map(s).contains_key(k) <==> exists|i: int| 0 <= i < s.len() && s[i].0@ == k,
    decreases s.len(),
{
    if s.len() > 0 {
        lemma_pairs_map_keys(s.drop_last(), k);
        if s.last().0@ == k {
            assert(s[s.len() - 1].0@ == k);
        } else {
            if pairs_to_map(s).contains_key(k) {
                let i = choose|i: int| 0 <= i < s.drop_last().len() && s.drop_last()[i].0@ == k;
                assert(s[i].0@ == k);
            }
            if exists|i: int| 0 <= i < s.len() && s[i].0@ == k {
                let i = choose|i: int| 0 <= i < s.len() && s[i].0@ == k;
                assert(s.drop_last()[i].0@ == k);
            }
        }
    }
}

/// With distinct names, the pair that holds a key decides its value.
pub proof fn lemma_pairs_map_value(s: Seq<(String, bool)>, i: int)
    requires
        forall|p: int, q: int| 0 <= p < q < s.len() ==> s[p].0@ != s[q].0@,
        0 <= i < s.len(),
    ensures
        pairs_to_map(s).contains_key(s[i].0@),
        pairs_to_map(s)[s[i].0@] == s[i].1,
    decreases s.len(),
{
    lemma_pairs_map_keys(s, s[i].0@);
    if i < s.len() - 1 {
        assert(s.last().0@ != s[i].0@);
        lemma_pairs_map_value(s.drop_last(), i);
        assert(s.drop_last()[i] == s[i]);
    }
}

/// A mapping from variable names to truth values.  Lookups on a missing name
/// resolve to `false` by convention.
#[derive(Debug, Clone)]
pub struct Assignment {
    pub pairs: Vec<(String, bool)>,
}

impl View for Assignment {
    type V = Map<Seq<char>, bool>;

    open spec fn view(&self) -> Map<Seq<char>, bool> {
        pairs_to_map(self.pairs@)
    }
}

impl Assignment {
    /// No name occurs twice.
    pub open spec fn wf(&self) -> bool {
        forall|p: int, q: int|
            0 <= p < q < self.pairs@.len() ==> self.pairs@[p].0@ != self.pairs@[q].0@
    }

    pub fn new() -> (r: Self)
        ensures
            r.wf(),
            r@ == Map::<Seq<char>, bool>::empty(),
    {
        Self { pairs: Vec::new() }
    }

    /// Sets the value of a name, replacing an earlier value if one is there.
    pub fn insert(&mut self, name: String, value: bool)
        requires
            old(self).wf(),
        ensures
            final(self).wf(),
            final(self)@ == old(self)@.insert(name@, value),
    {
        let mut i: usize = 0;
        while i < self.pairs.len()
            invariant
                0 <= i <= self.pairs@.len(),
                old(self).wf(),
                self == old(self),
                forall|k: int| 0 <= k < i ==> self.pairs@[k].0@ != name@,
            decreases self.pairs@.len() - i,
        {
            if str_eq(self.pairs[i].0.as_str(), name.as_str()) {
                let ghost pre = self.pairs@;
                self.pairs.set(i, (name, value));
                proof {
                    lemma_update_map(pre, i as int, self.pairs@[i as int]);
                }
                return ;
            }
            i = i + 1;
        }
        let ghost pre = self.pairs@;
        self.pairs.push((name, value));
        proof {
            assert(self.pairs@.drop_last() =~= pre);
        }
    }

    /// The value of a name; `false` when the name is absent.
    pub fn get(&self, name: &str) -> (r: bool)
        requires
            self.wf(),
        ensures
            r == lookup(self@, name@),
    {
        let mut i: usize = 0;
        while i < self.pairs.len()
            invariant
                0 <= i <= self.pairs@.len(),
                self.wf(),
                forall|k: int| 0 <= k < i ==> self.pairs@[k].0@ != name@,
            decreases self.pairs@.len() - i,
        {
            if str_eq(self.pairs[i].0.as_str(), name) {
                proof {
                    lemma_pairs_map_value(self.pairs@, i as int);
                }
                return self.pairs[i].1;
            }
            i = i + 1;
        }
        proof {
            lemma_pairs_map_keys(self.pairs@, name@);
        }
        false
    }

    /// How many names are set.
    pub fn len(&self) -> (r: usize)
        ensures
            r == self.pairs@.len(),
    {
        self.pairs.len()
    }
}

/// The front door of the engine: truth tables, equivalence checks and
/// reductions.
pub struct Evaluator;

impl Evaluator {
    /// Generates the full truth table of an expression; see
    /// [`truth_table::generate_truth_table`].
    pub fn generate_truth_table(expr: &Expr) -> (r: Result<TruthTable, EvaluationError>)
        ensures
            match r {
                Ok(t) => {
                    &&& t.variables.wf()
                    &&& t.variables@.len() <= MAX_VARIABLES
                    &&& t.variables.as_set() == expr_vars(*expr)
                    &&& collect_vars(*expr) is Ok
                    &&& t.rows@.len() == vstd::arithmetic::power2::pow2(t.variables@.len() as nat)
                    &&& forall|i: int|
                        0 <= i < t.rows@.len() ==> truth_table::row_ok(
                            *expr,
                            t.variables@,
                            #[trigger] t.rows@[i],
                            i as nat,
                        )
                },
                Err(e) => collect_vars(*expr) is Err && matches_collect_err(
                    collect_vars(*expr),
                    e,
                ),
            },
    {
        truth_table::generate_truth_table(expr)
    }

    /// Checks two expressions for logical equivalence; see
    /// [`equivalence::check_equivalence`].
    pub fn check_equivalence(left: &Expr, right: &Expr) -> (r: Result<
        EquivalenceCheck,
        EvaluationError,
    >)
        ensures
            match r {
                Ok(c) => {
                    &&& c.variables.wf()
                    &&& collect_vars(*left) is Ok
                    &&& collect_vars(*right) is Ok
                    &&& c.variables.as_set() == expr_vars(*left).union(expr_vars(*right))
                    &&& c.equivalent == equivalent_exprs(*left, *right)
                    &&& (c.equivalent <==> c.differences@.len() == 0)
                },
                Err(e) => {
                    if collect_vars(*left) is Err {
                        matches_collect_err(collect_vars(*left), e)
                    } else {
                        collect_vars(*right) is Err && matches_collect_err(
                            collect_vars(*right),
                            e,
                        )
                    }
                },
            },
    {
        equivalence::check_equivalence(left, right)
    }

    /// Reduces an expression; see [`reduction::reduce_expression`].
    pub fn reduce_expression(expr: &Expr) -> (r: Result<Reduction, EvaluationError>)
        ensures
            match r {
                Ok(red) => {
                    &&& collect_vars(*expr) is Ok
                    &&& red.original == *expr
                    &&& equivalent_exprs(*expr, red.reduced)
                    &&& (reduction::taut_spec(*expr) ==> reduction::is_taut_sentinel(red.reduced)
                        && red.simplified)
                    &&& (reduction::contra_spec(*expr) ==> reduction::is_contra_sentinel(
                        red.reduced,
                    ) && red.simplified)
                    &&& (!reduction::taut_spec(*expr) && !reduction::contra_spec(*expr)
                        ==> red.simplified == !reduction::struct_equiv(*expr, red.reduced))
                    &&& (!reduction::taut_spec(*expr) && !reduction::contra_spec(*expr)
                        ==> reduction::is_sum_of_products(red.reduced, expr_vars(*expr)))
                },
                Err(e) => collect_vars(*expr) is Err && matches_collect_err(
                    collect_vars(*expr),
                    e,
                ),
            },
    {
        reduction::reduce_expression(expr)
    }

    /// Evaluates an expression under one assignment; a missing variable
    /// reads as `false`.
    pub fn evaluate_with_assignment(expr: &Expr, assignment: &Assignment) -> (r: bool)
        requires
            assignment.wf(),
        ensures
            r == eval_expr(*expr, assignment@),
    {
        truth_table::evaluate_expression(expr, assignment)
    }

    /// Collects, validates and sorts the variables of an expression.
    pub fn collect_expression_variables(expr: &Expr) -> (r: Result<Variables, EvaluationError>)
        ensures
            match r {
                Ok(v) => {
                    &&& v.wf()
                    &&& v@.len() <= MAX_VARIABLES
                    &&& v.as_set() == expr_vars(*expr)
                },
                Err(e) => collect_vars(*expr) is Err && matches_collect_err(
                    collect_vars(*expr),
                    e,
                ),
            },
    {
        Variables::from_expr(expr)
    }
}

/// Updating the pair of a present key updates just that key of the map.
proof fn lemma_update_map(s: Seq<(String, bool)>, i: int, p: (String, bool))
    requires
        forall|a: int, b: int| 0 <= a < b < s.len() ==> s[a].0@ != s[b].0@,
        0 <= i < s.len(),
        s[i].0@ == p.0@,
    ensures
        pairs_to_map(s.update(i, p)) == pairs_to_map(s).insert(p.0@, p.1),
    decreases s.len(),
{
    if i == s.len() - 1 {
        assert(s.update(i, p).drop_last() =~= s.drop_last());
        assert(s.update(i, p).last() == p);
        assert(pairs_to_map(s.update(i, p)) =~= pairs_to_map(s).insert(p.0@, p.1));
    } else {
        assert(s.update(i, p).drop_last() =~= s.drop_last().update(i, p));
        lemma_update_map(s.drop_last(), i, p);
        assert(s.update(i, p).last() == s.last());
        assert(pairs_to_map(s.update(i, p)) =~= pairs_to_map(s).insert(p.0@, p.1)) by {
            assert(s.last().0@ != p.0@);
        }
    }
}

} // verus!
