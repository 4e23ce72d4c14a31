//! Variables, linear combinations, their evaluation model, and the pure
//! classifiers that decide how a combination is shaped.

use vstd::prelude::*;
use vstd::seq_lib::group_seq_properties;
use crate::field::{Fr, fr_ok, fr_zero, fr_add, fadd, modulus, eqm, lemma_eqm_refl,
    lemma_eqm_add, lemma_eqm_mul, lemma_eqm_trans, lemma_fadd_eqm, lemma_fadd_bound};

verus! {

/// An opaque variable handle: a public input or an auxiliary (synthetic)
/// variable, referenced by index.
#[derive(Clone, Copy, PartialEq, Eq, Structural, Debug, Hash)]
pub enum Variable {
    Input(usize),
    Aux(usize),
}

/// The distinguished constant-one variable: the public input of index 1.
pub open spec fn one_variable() -> Variable {
    Variable::Input(1)
}

/// A weighted sum of variables; a term on the constant-one variable is a
/// free constant contribution.
#[derive(Clone, Debug)]
pub struct LinearCombination {
    pub terms: Vec<(Variable, Fr)>,
}

impl View for LinearCombination {
    type V = Seq<(Variable, Fr)>;

    open spec fn view(&self) -> Seq<(Variable, Fr)> {
        self.terms@
    }
}

impl LinearCombination {
    /// The empty combination, evaluating to zero.
    pub fn new() -> (r: LinearCombination)
        ensures
            r@ =~= Seq::<(Variable, Fr)>::empty(),
    {
        LinearCombination { terms: Vec::new() }
    }

    /// Appends one term.
    pub fn add_term(&mut self, var: Variable, coeff: Fr) -> (r: ())
        ensures
            final(self)@ == old(self)@.push((var, coeff)),
    {
        self.terms.push((var, coeff));
    }

    /// How many terms the combination holds.
    pub fn len(&self) -> (r: usize)
        ensures
            r == self@.len(),
    {
        self.terms.len()
    }
}

/// Every coefficient is a canonical field representative.
pub open spec fn lc_ok(s: Seq<(Variable, Fr)>) -> bool {
    forall|i: int| 0 <= i < s.len() ==> fr_ok(#[trigger] s[i].1)
}

/// The value a variable takes under a witness: the constant-one variable is
/// pinned to 1, every other variable reads the witness map.
pub open spec fn var_value(v: Variable, w: Map<Variable, int>) -> int {
    if v == one_variable() {
        1
    } else {
        w[v]
    }
}

/// The contribution of one term under a witness.
pub open spec fn term_value(t: (Variable, Fr), w: Map<Variable, int>) -> int {
    t.1.v as int * var_value(t.0, w)
}

/// The plain integer value of a combination under a witness; all gate
/// identities are stated as congruences of such values.
pub open spec fn lc_eval(s: Seq<(Variable, Fr)>, w: Map<Variable, int>) -> int
    decreases s.len(),
{
    if s.len() == 0 {
        0
    } else {
        lc_eval(s.drop_last(), w) + term_value(s.last(), w)
    }
}

/// The subsequence of terms on ordinary (non-constant) variables, in order.
pub open spec fn non_one_terms(s: Seq<(Variable, Fr)>) -> Seq<(Variable, Fr)>
    decreases s.len(),
{
    if s.len() == 0 {
        Seq::empty()
    } else {
        let r = non_one_terms(s.drop_last());
        if s.last().0 == one_variable() {
            r
        } else {
            r.push(s.last())
        }
    }
}

/// The sum of all coefficients carried by the constant-one variable.
pub open spec fn one_coeff_sum(s: Seq<(Variable, Fr)>) -> int
    decreases s.len(),
{
    if s.len() == 0 {
        0
    } else {
        one_coeff_sum(s.drop_last()) + if s.last().0 == one_variable() {
            s.last().1.v as int
        } else {
            0
        }
    }
}

/// The set of ordinary variables a combination references.
pub open spec fn distinct_vars(s: Seq<(Variable, Fr)>) -> Set<Variable>
    decreases s.len(),
{
    if s.len() == 0 {
        Set::empty()
    } else {
        let r = distinct_vars(s.drop_last());
        if s.last().0 == one_variable() {
            r
        } else {
            r.insert(s.last().0)
        }
    }
}

/// No variable is referenced by two terms.
pub open spec fn no_dup_vars(s: Seq<(Variable, Fr)>) -> bool {
    forall|i: int, j: int| 0 <= i < j < s.len() ==> (#[trigger] s[i]).0 != (#[trigger] s[j]).0
}

/// Whether some term rides on the constant-one variable.
pub open spec fn spec_has_one(s: Seq<(Variable, Fr)>) -> bool {
    exists|i: int| 0 <= i < s.len() && (#[trigger] s[i]).0 == one_variable()
}

/// The coefficient of the first constant-one term, or zero if there is none.
pub open spec fn spec_const_term(s: Seq<(Variable, Fr)>) -> int
    decreases s.len(),
{
    if s.len() == 0 {
        0
    } else if s[0].0 == one_variable() {
        s[0].1.v as int
    } else {
        spec_const_term(s.drop_first())
    }
}

/// A combination is a bare constant: empty, or a single constant-one term.
pub open spec fn spec_is_constant(s: Seq<(Variable, Fr)>) -> bool {
    s.len() == 0 || (s.len() == 1 && s[0].0 == one_variable())
}

/// The coefficient of the last term on an ordinary variable.
pub open spec fn last_non_one_coeff(s: Seq<(Variable, Fr)>) -> int
    decreases s.len(),
{
    if s.len() == 0 {
        0
    } else if s.last().0 != one_variable() {
        s.last().1.v as int
    } else {
        last_non_one_coeff(s.drop_last())
    }
}

/// The variable set holds exactly the ordinary variables of some term.
pub proof fn lemma_distinct_vars_contains(s: Seq<(Variable, Fr)>, v: Variable)
    ensures
        distinct_vars(s).contains(v) <==> (v != one_variable() && exists|i: int|
            0 <= i < s.len() && (#[trigger] s[i]).0 == v),
    decreases s.len(),
{
    if s.len() > 0 {
        lemma_distinct_vars_contains(s.drop_last(), v);
        if v != one_variable() && exists|i: int| 0 <= i < s.len() && (#[trigger] s[i]).0 == v {
            let i = choose|i: int| 0 <= i < s.len() && (#[trigger] s[i]).0 == v;
            if i < s.len() - 1 {
                assert(s.drop_last()[i].0 == v);
            }
        }
        if distinct_vars(s).contains(v) && s.last().0 != v {
            assert(distinct_vars(s.drop_last()).contains(v));
            let i = choose|i: int|
                0 <= i < s.drop_last().len() && (#[trigger] s.drop_last()[i]).0 == v;
            assert(s[i].0 == v);
        }
    }
}

/// The variable set is finite.
pub proof fn lemma_distinct_vars_finite(s: Seq<(Variable, Fr)>)
    ensures
        distinct_vars(s).finite(),
    decreases s.len(),
{
    if s.len() > 0 {
        lemma_distinct_vars_finite(s.drop_last());
    }
}

/// Without duplicate variables, the ordinary terms and the variable set
/// agree in number.
pub proof fn lemma_non_one_len(s: Seq<(Variable, Fr)>)
    requires
        no_dup_vars(s),
    ensures
        non_one_terms(s).len() == distinct_vars(s).len(),
    decreases s.len(),
{
    lemma_distinct_vars_finite(s);
    if s.len() > 0 {
        assert(no_dup_vars(s.drop_last())) by {
            assert(forall|i: int, j: int|
                0 <= i < j < s.drop_last().len() ==> (#[trigger] s.drop_last()[i]).0 != (
                #[trigger] s.drop_last()[j]).0);
        }
        lemma_non_one_len(s.drop_last());
        lemma_distinct_vars_finite(s.drop_last());
        if s.last().0 != one_variable() {
            assert(!distinct_vars(s.drop_last()).contains(s.last().0)) by {
                lemma_distinct_vars_contains(s.drop_last(), s.last().0);
                assert(forall|i: int|
                    0 <= i < s.len() - 1 ==> (#[trigger] s[i]).0 != s.last().0);
            }
        }
    }
}

/// A combination evaluates to its ordinary part plus its constant part.
pub proof fn lemma_eval_split(s: Seq<(Variable, Fr)>, w: Map<Variable, int>)
    ensures
        lc_eval(s, w) == lc_eval(non_one_terms(s), w) + one_coeff_sum(s),
    decreases s.len(),
{
    if s.len() > 0 {
        lemma_eval_split(s.drop_last(), w);
        if s.last().0 == one_variable() {
            assert(term_value(s.last(), w) == s.last().1.v as int);
        } else {
            let r = non_one_terms(s.drop_last());
            assert(r.push(s.last()).drop_last() =~= r);
        }
    }
}

/// Without duplicate variables the constant part is the one constant term.
pub proof fn lemma_one_coeff_sum_is_const_term(s: Seq<(Variable, Fr)>)
    requires
        no_dup_vars(s),
    ensures
        one_coeff_sum(s) == spec_const_term(s),
    decreases s.len(),
{
    if s.len() > 0 {
        if s.len() == 1 {
            assert(s.drop_last().len() == 0);
            assert(one_coeff_sum(s.drop_last()) == 0);
            if s[0].0 == one_variable() {
                assert(s.last() == s[0]);
                assert(one_coeff_sum(s) == s[0].1.v as int);
                assert(spec_const_term(s) == s[0].1.v as int);
            } else {
                assert(one_coeff_sum(s) == 0);
                assert(spec_const_term(s.drop_first()) == 0);
                assert(spec_const_term(s) == 0);
            }
        } else {
            let d = s.drop_last();
            assert(no_dup_vars(d)) by {
                assert(forall|i: int, j: int|
                    0 <= i < j < d.len() ==> (#[trigger] d[i]).0 != (#[trigger] d[j]).0);
            }
            lemma_one_coeff_sum_is_const_term(d);
            assert(d[0] == s[0]);
            if s.last().0 == one_variable() {
                // no earlier term rides on the constant-one variable
                assert(forall|i: int|
                    0 <= i < s.len() - 1 ==> (#[trigger] s[i]).0 != one_variable());
                lemma_const_term_absent(d);
                assert(s[0].0 != one_variable());
                assert(one_coeff_sum(s) == s.last().1.v as int);
                lemma_const_term_at(s, s.len() - 1);
            } else {
                assert(one_coeff_sum(s) == one_coeff_sum(d));
                lemma_const_term_tail_same(s);
            }
        }
    }
}

/// With no constant-one term the constant part is zero.
pub proof fn lemma_const_term_absent(s: Seq<(Variable, Fr)>)
    requires
        forall|i: int| 0 <= i < s.len() ==> (#[trigger] s[i]).0 != one_variable(),
    ensures
        spec_const_term(s) == 0,
        !spec_has_one(s),
    decreases s.len(),
{
    if s.len() > 0 {
        assert(forall|i: int|
            0 <= i < s.drop_first().len() ==> (#[trigger] s.drop_first()[i]).0 != one_variable())
            by {
            assert(forall|i: int|
                0 <= i < s.drop_first().len() ==> s.drop_first()[i] == s[i + 1]);
        }
        lemma_const_term_absent(s.drop_first());
    }
}

/// The constant term is the coefficient of the first constant-one term.
pub proof fn lemma_const_term_at(s: Seq<(Variable, Fr)>, i: int)
    requires
        0 <= i < s.len(),
        s[i].0 == one_variable(),
        forall|j: int| 0 <= j < i ==> (#[trigger] s[j]).0 != one_variable(),
    ensures
        spec_const_term(s) == s[i].1.v as int,
        spec_has_one(s),
    decreases i,
{
    if i > 0 {
        assert(s.drop_first()[i - 1] == s[i]);
        assert(forall|j: int|
            0 <= j < i - 1 ==> (#[trigger] s.drop_first()[j]).0 != one_variable()) by {
            assert(forall|j: int|
                0 <= j < s.drop_first().len() ==> s.drop_first()[j] == s[j + 1]);
        }
        lemma_const_term_at(s.drop_first(), i - 1);
    }
}

/// Dropping the last term keeps the constant term, when that term is not
/// the constant-one variable.
proof fn lemma_const_term_tail_same(s: Seq<(Variable, Fr)>)
    requires
        s.len() > 0,
        s.last().0 != one_variable(),
    ensures
        spec_const_term(s) == spec_const_term(s.drop_last()),
    decreases s.len(),
{
    if s.len() == 1 {
        assert(spec_const_term(s.drop_first()) == 0);
        assert(spec_const_term(s) == 0);
        assert(spec_const_term(s.drop_last()) == 0);
    } else if s[0].0 == one_variable() {
        assert(s.drop_last()[0] == s[0]);
        assert(spec_const_term(s) == s[0].1.v as int);
        assert(spec_const_term(s.drop_last()) == s[0].1.v as int);
    } else {
        assert(s.drop_first().last() == s.last());
        lemma_const_term_tail_same(s.drop_first());
        assert(s.drop_first().drop_last() =~= s.drop_last().drop_first());
        assert(s.drop_last()[0] == s[0]);
        assert(spec_const_term(s) == spec_const_term(s.drop_first()));
        assert(spec_const_term(s.drop_last()) == spec_const_term(s.drop_last().drop_first()));
    }
}

/// Reports whether a combination has a constant-one term (an empty
/// combination counts as the constant zero) and that term's coefficient.
pub fn get_constant_term(lc: &LinearCombination) -> (r: (bool, Fr))
    requires
        lc_ok(lc@),
    ensures
        r.0 == (lc@.len() == 0 || spec_has_one(lc@)),
        r.1.v as int == spec_const_term(lc@),
        fr_ok(r.1),
{
    let n = lc.terms.len();
    if n == 0 {
        return (true, fr_zero());
    }
    let mut i: usize = 0;
    while i < n
        invariant
            0 <= i <= n,
            n == lc@.len(),
            lc_ok(lc@),
            forall|j: int| 0 <= j < i ==> (#[trigger] lc@[j]).0 != one_variable(),
        decreases n - i,
    {
        let (var, coeff) = lc.terms[i];
        if var == Variable::Input(1) {
            proof {
                lemma_const_term_at(lc@, i as int);
            }
            return (true, coeff);
        }
        i += 1;
    }
    proof {
        lemma_const_term_absent(lc@);
    }
    (false, fr_zero())
}

/// Decides whether a combination is a bare field constant, returning its
/// value when it is.
pub fn is_constant(lc: &LinearCombination) -> (r: (bool, Fr))
    requires
        lc_ok(lc@),
    ensures
        r.0 == spec_is_constant(lc@),
        r.1.v as int == if spec_is_constant(lc@) {
            spec_const_term(lc@)
        } else {
            0
        },
        fr_ok(r.1),
{
    let result = get_constant_term(lc);
    if result.0 && lc.terms.len() <= 1 {
        return result;
    }
    (false, fr_zero())
}

/// Pushing a fresh variable keeps a workspace duplicate-free and grows its
/// contents by exactly that variable.
proof fn lemma_push_fresh(s: Seq<Variable>, x: Variable)
    requires
        s.no_duplicates(),
        !s.contains(x),
    ensures
        s.push(x).no_duplicates(),
        forall|v: Variable| s.push(x).contains(v) <==> (s.contains(v) || v == x),
{
    let p = s.push(x);
    assert forall|v: Variable| p.contains(v) <==> (s.contains(v) || v == x) by {
        if p.contains(v) {
            let j = choose|j: int| 0 <= j < p.len() && p[j] == v;
            if j < s.len() {
                assert(s[j] == v);
            }
        }
        if s.contains(v) {
            let j = choose|j: int| 0 <= j < s.len() && s[j] == v;
            assert(p[j] == v);
        }
        if v == x {
            assert(p[s.len() as int] == v);
        }
    }
    assert forall|i: int, j: int|
        0 <= i < p.len() && 0 <= j < p.len() && i != j implies p[i] != p[j] by {
        if i < s.len() && j < s.len() {
            assert(s[i] == p[i] && s[j] == p[j]);
        } else if i == s.len() {
            assert(p[i] == x);
            if p[j] == x {
                assert(s[j] == x);
                assert(s.contains(x));
            }
        } else {
            assert(p[j] == x);
            if p[i] == x {
                assert(s[i] == x);
                assert(s.contains(x));
            }
        }
    }
}

/// Whether a scratch vector already holds a variable.
fn scratch_contains(scratch: &Vec<Variable>, x: Variable) -> (r: bool)
    ensures
        r == scratch@.contains(x),
{
    let n = scratch.len();
    let mut i: usize = 0;
    while i < n
        invariant
            0 <= i <= n,
            n == scratch@.len(),
            forall|j: int| 0 <= j < i ==> scratch@[j] != x,
        decreases n - i,
    {
        if scratch[i] == x {
            return true;
        }
        i += 1;
    }
    false
}

/// Counts the distinct ordinary variables of a combination, reporting also
/// whether a constant-one term was seen; the scratch workspace must be empty
/// on entry and is empty again on exit.
pub fn num_unique_values(lc: &LinearCombination, scratch: &mut Vec<Variable>) -> (r: (bool, usize))
    requires
        old(scratch)@.len() == 0,
    ensures
        final(scratch)@.len() == 0,
        r.0 == spec_has_one(lc@),
        r.1 as nat == distinct_vars(lc@).len(),
{
    broadcast use group_seq_properties;

    let n = lc.terms.len();
    let mut saw_one = false;
    let mut i: usize = 0;
    while i < n
        invariant
            0 <= i <= n,
            n == lc@.len(),
            scratch@.no_duplicates(),
            forall|v: Variable| scratch@.contains(v) <==> distinct_vars(
                lc@.take(i as int),
            ).contains(v),
            saw_one == spec_has_one(lc@.take(i as int)),
        decreases n - i,
    {
        let ghost pre = lc@.take(i as int);
        let ghost post = lc@.take(i as int + 1);
        let ghost scratch0 = scratch@;
        proof {
            assert(post.drop_last() =~= pre);
            assert(post.last() == lc@[i as int]);
            if spec_has_one(pre) {
                let k = choose|k: int| 0 <= k < pre.len() && (#[trigger] pre[k]).0 == one_variable();
                assert(post[k].0 == one_variable());
            }
        }
        let (var, _coeff) = lc.terms[i];
        if var == Variable::Input(1) {
            saw_one = true;
            proof {
                assert(post[i as int].0 == one_variable());
            }
        } else {
            proof {
                if spec_has_one(post) {
                    let k = choose|k: int|
                        0 <= k < post.len() && (#[trigger] post[k]).0 == one_variable();
                    assert(pre[k].0 == one_variable());
                }
            }
            if !scratch_contains(scratch, var) {
                scratch.push(var);
                proof {
                    assert(scratch@ == scratch0.push(var));
                    lemma_push_fresh(scratch0, var);
                }
            } else {
                proof {
                    lemma_distinct_vars_contains(pre, var);
                }
            }
        }
        proof {
            assert(post.drop_last() =~= pre);
            if lc@[i as int].0 == one_variable() {
                assert(distinct_vars(post) == distinct_vars(pre));
            } else {
                assert(distinct_vars(post) == distinct_vars(pre).insert(lc@[i as int].0));
            }
            assert forall|v: Variable| scratch@.contains(v) <==> distinct_vars(post).contains(
                v,
            ) by {
                assert(scratch0.contains(v) <==> distinct_vars(pre).contains(v));
                if lc@[i as int].0 != one_variable() {
                    assert(distinct_vars(post).contains(v) <==> (distinct_vars(pre).contains(v)
                        || v == lc@[i as int].0));
                }
            }
        }
        proof {
            if spec_has_one(post) && !spec_has_one(pre) {
                let k = choose|k: int|
                    0 <= k < post.len() && (#[trigger] post[k]).0 == one_variable();
                assert(k == i as int);
            }
        }
        i += 1;
    }
    proof {
        assert(lc@.take(n as int) =~= lc@);
        assert(scratch@.to_set() =~= distinct_vars(lc@));
        scratch@.unique_seq_to_set();
    }
    let count = scratch.len();
    scratch.clear();
    (saw_one, count)
}

/// Decides whether a combination references exactly one distinct ordinary
/// variable; if so, hands back that variable and the last coefficient seen
/// for an ordinary term.
pub fn is_linear_term(lc: &LinearCombination, scratch: &mut Vec<Variable>) -> (r: (
    bool,
    Variable,
    Fr,
))
    requires
        lc_ok(lc@),
        old(scratch)@.len() == 0,
    ensures
        final(scratch)@.len() == 0,
        r.0 == (distinct_vars(lc@).len() == 1),
        r.0 ==> distinct_vars(lc@).contains(r.1),
        r.0 ==> r.2.v as int == last_non_one_coeff(lc@) && fr_ok(r.2),
        !r.0 ==> r.1 == one_variable() && r.2.v == 0,
{
    broadcast use group_seq_properties;

    let n = lc.terms.len();
    let mut linear_coeff = fr_zero();
    let mut i: usize = 0;
    while i < n
        invariant
            0 <= i <= n,
            n == lc@.len(),
            lc_ok(lc@),
            scratch@.no_duplicates(),
            forall|v: Variable| scratch@.contains(v) <==> distinct_vars(
                lc@.take(i as int),
            ).contains(v),
            linear_coeff.v as int == last_non_one_coeff(lc@.take(i as int)),
            non_one_terms(lc@.take(i as int)).len() > 0 ==> fr_ok(linear_coeff),
            non_one_terms(lc@.take(i as int)).len() == 0 ==> linear_coeff.v == 0,
        decreases n - i,
    {
        let ghost pre = lc@.take(i as int);
        let ghost post = lc@.take(i as int + 1);
        let ghost scratch0 = scratch@;
        proof {
            assert(post.drop_last() =~= pre);
            assert(post.last() == lc@[i as int]);
        }
        let (var, coeff) = lc.terms[i];
        if var != Variable::Input(1) {
            if !scratch_contains(scratch, var) {
                scratch.push(var);
                proof {
                    assert(scratch@ == scratch0.push(var));
                    lemma_push_fresh(scratch0, var);
                }
            } else {
                proof {
                    lemma_distinct_vars_contains(pre, var);
                }
            }
            linear_coeff = coeff;
        }
        proof {
            assert(post.drop_last() =~= pre);
            if lc@[i as int].0 == one_variable() {
                assert(distinct_vars(post) == distinct_vars(pre));
            } else {
                assert(distinct_vars(post) == distinct_vars(pre).insert(lc@[i as int].0));
            }
            assert forall|v: Variable| scratch@.contains(v) <==> distinct_vars(post).contains(
                v,
            ) by {
                assert(scratch0.contains(v) <==> distinct_vars(pre).contains(v));
                if lc@[i as int].0 != one_variable() {
                    assert(distinct_vars(post).contains(v) <==> (distinct_vars(pre).contains(v)
                        || v == lc@[i as int].0));
                }
            }
        }
        i += 1;
    }
    proof {
        assert(lc@.take(n as int) =~= lc@);
        assert(scratch@.to_set() =~= distinct_vars(lc@));
        scratch@.unique_seq_to_set();
        lemma_distinct_vars_finite(lc@);
    }
    if scratch.len() == 1 {
        let term = scratch[0];
        proof {
            assert(scratch@.contains(term));
            if non_one_terms(lc@).len() == 0 {
                lemma_non_one_empty_no_vars(lc@);
            }
        }
        scratch.clear();
        (true, term, linear_coeff)
    } else {
        scratch.clear();
        (false, Variable::Input(1), fr_zero())
    }
}

/// Whether some term rides on the given variable.
pub open spec fn has_var(s: Seq<(Variable, Fr)>, v: Variable) -> bool {
    exists|i: int| 0 <= i < s.len() && (#[trigger] s[i]).0 == v
}

/// The first index of a term on the given variable, or -1 if there is none.
pub open spec fn spec_find_var(s: Seq<(Variable, Fr)>, v: Variable) -> int
    decreases s.len(),
{
    if s.len() == 0 {
        -1
    } else if s[0].0 == v {
        0
    } else {
        let r = spec_find_var(s.drop_first(), v);
        if r < 0 {
            -1
        } else {
            r + 1
        }
    }
}

/// What the first-index search finds.
pub proof fn lemma_find_var_char(s: Seq<(Variable, Fr)>, v: Variable)
    ensures
        spec_find_var(s, v) < 0 ==> !has_var(s, v),
        spec_find_var(s, v) >= 0 ==> 0 <= spec_find_var(s, v) < s.len() && s[spec_find_var(
            s,
            v,
        )].0 == v,
    decreases s.len(),
{
    if s.len() > 0 && s[0].0 != v {
        lemma_find_var_char(s.drop_first(), v);
        let d = s.drop_first();
        assert(forall|i: int| 0 <= i < d.len() ==> d[i] == s[i + 1]);
        if spec_find_var(s, v) < 0 && has_var(s, v) {
            let i = choose|i: int| 0 <= i < s.len() && (#[trigger] s[i]).0 == v;
            assert(d[i - 1].0 == v);
        }
    }
}

/// The first-index search, pinned to a known position.
proof fn lemma_find_var_at(s: Seq<(Variable, Fr)>, v: Variable, i: int)
    requires
        0 <= i < s.len(),
        s[i].0 == v,
        forall|j: int| 0 <= j < i ==> (#[trigger] s[j]).0 != v,
    ensures
        spec_find_var(s, v) == i,
    decreases i,
{
    if i > 0 {
        let d = s.drop_first();
        assert(forall|j: int| 0 <= j < d.len() ==> d[j] == s[j + 1]);
        lemma_find_var_at(d, v, i - 1);
    }
}

/// The first-index search on a sequence without the variable.
proof fn lemma_find_var_none(s: Seq<(Variable, Fr)>, v: Variable)
    requires
        forall|j: int| 0 <= j < s.len() ==> (#[trigger] s[j]).0 != v,
    ensures
        spec_find_var(s, v) == -1,
    decreases s.len(),
{
    if s.len() > 0 {
        let d = s.drop_first();
        assert(forall|j: int| 0 <= j < d.len() ==> d[j] == s[j + 1]);
        lemma_find_var_none(d, v);
    }
}

/// Folds one term into a partially merged sequence: the coefficient is added
/// into an existing term on the same variable, or the term is appended.
pub open spec fn spec_merge_term(acc: Seq<(Variable, Fr)>, t: (Variable, Fr)) -> Seq<
    (Variable, Fr),
> {
    let i = spec_find_var(acc, t.0);
    if i < 0 {
        acc.push(t)
    } else {
        acc.update(i, (t.0, Fr { v: fadd(acc[i].1.v as int, t.1.v as int) as u64 }))
    }
}

/// Merges every duplicate-variable term by summing coefficients, keeping the
/// first occurrence order.
pub open spec fn spec_merge_all(s: Seq<(Variable, Fr)>) -> Seq<(Variable, Fr)>
    decreases s.len(),
{
    if s.len() == 0 {
        Seq::empty()
    } else {
        spec_merge_term(spec_merge_all(s.drop_last()), s.last())
    }
}

/// Drops every term whose coefficient is zero.
pub open spec fn spec_drop_zero(s: Seq<(Variable, Fr)>) -> Seq<(Variable, Fr)>
    decreases s.len(),
{
    if s.len() == 0 {
        Seq::empty()
    } else {
        let r = spec_drop_zero(s.drop_last());
        if s.last().1.v == 0 {
            r
        } else {
            r.push(s.last())
        }
    }
}

/// The canonical form of a combination: duplicate variables merged, zero
/// coefficients dropped.
pub open spec fn spec_normalize(s: Seq<(Variable, Fr)>) -> Seq<(Variable, Fr)> {
    spec_drop_zero(spec_merge_all(s))
}

/// Folding one term keeps well-formed coefficients, duplicate-freedom, and
/// extends the variables by at most the new term's variable.
proof fn lemma_merge_term_props(acc: Seq<(Variable, Fr)>, t: (Variable, Fr))
    requires
        no_dup_vars(acc),
        lc_ok(acc),
        fr_ok(t.1),
    ensures
        no_dup_vars(spec_merge_term(acc, t)),
        lc_ok(spec_merge_term(acc, t)),
        forall|v: Variable| has_var(spec_merge_term(acc, t), v) <==> (has_var(acc, v) || v
            == t.0),
{
    lemma_find_var_char(acc, t.0);
    let i = spec_find_var(acc, t.0);
    let r = spec_merge_term(acc, t);
    if i < 0 {
        assert forall|v: Variable| has_var(r, v) <==> (has_var(acc, v) || v == t.0) by {
            if has_var(r, v) {
                let k = choose|k: int| 0 <= k < r.len() && (#[trigger] r[k]).0 == v;
                if k < acc.len() {
                    assert(acc[k].0 == v);
                }
            }
            if has_var(acc, v) {
                let k = choose|k: int| 0 <= k < acc.len() && (#[trigger] acc[k]).0 == v;
                assert(r[k].0 == v);
            }
            if v == t.0 {
                assert(r[acc.len() as int].0 == v);
            }
        }
        assert forall|k: int, l: int| 0 <= k < l < r.len() implies (#[trigger] r[k]).0 != (
        #[trigger] r[l]).0 by {
            if l < acc.len() {
                assert(acc[k].0 != acc[l].0);
            } else {
                assert(r[l].0 == t.0);
                assert(acc[k].0 != t.0);
            }
        }
        assert forall|k: int| 0 <= k < r.len() implies fr_ok(#[trigger] r[k].1) by {
            if k < acc.len() {
                assert(fr_ok(acc[k].1));
            }
        }
    } else {
        assert forall|v: Variable| has_var(r, v) <==> (has_var(acc, v) || v == t.0) by {
            if has_var(r, v) {
                let k = choose|k: int| 0 <= k < r.len() && (#[trigger] r[k]).0 == v;
                assert(acc[k].0 == v);
            }
            if has_var(acc, v) {
                let k = choose|k: int| 0 <= k < acc.len() && (#[trigger] acc[k]).0 == v;
                assert(r[k].0 == v);
            }
            if v == t.0 {
                assert(r[i].0 == v);
            }
        }
        assert forall|k: int, l: int| 0 <= k < l < r.len() implies (#[trigger] r[k]).0 != (
        #[trigger] r[l]).0 by {
            assert(r[k].0 == acc[k].0 && r[l].0 == acc[l].0);
        }
        assert forall|k: int| 0 <= k < r.len() implies fr_ok(#[trigger] r[k].1) by {
            if k != i {
                assert(r[k] == acc[k]);
            } else {
                crate::field::lemma_fadd_bound(acc[i].1.v as int, t.1.v as int);
            }
        }
    }
}

/// Merging keeps well-formed coefficients and duplicate-freedom, and keeps
/// exactly the variables of the original terms.
pub proof fn lemma_merge_all_props(s: Seq<(Variable, Fr)>)
    requires
        lc_ok(s),
    ensures
        no_dup_vars(spec_merge_all(s)),
        lc_ok(spec_merge_all(s)),
        forall|v: Variable| has_var(spec_merge_all(s), v) <==> has_var(s, v),
    decreases s.len(),
{
    if s.len() == 0 {
        assert(spec_merge_all(s) =~= Seq::<(Variable, Fr)>::empty());
    } else {
        let d = s.drop_last();
        assert(lc_ok(d)) by {
            assert(forall|k: int| 0 <= k < d.len() ==> d[k] == s[k]);
        }
        lemma_merge_all_props(d);
        assert(fr_ok(s.last().1));
        lemma_merge_term_props(spec_merge_all(d), s.last());
        assert forall|v: Variable| has_var(spec_merge_all(s), v) <==> has_var(s, v) by {
            assert(has_var(spec_merge_all(s), v) <==> (has_var(spec_merge_all(d), v) || v
                == s.last().0));
            if has_var(d, v) {
                let k = choose|k: int| 0 <= k < d.len() && (#[trigger] d[k]).0 == v;
                assert(s[k].0 == v);
            }
            if v == s.last().0 {
                assert(s[s.len() - 1].0 == v);
            }
            if has_var(s, v) && v != s.last().0 {
                let k = choose|k: int| 0 <= k < s.len() && (#[trigger] s[k]).0 == v;
                assert(d[k].0 == v);
            }
        }
    }
}

/// Dropping zero coefficients keeps duplicate-freedom and well-formedness and
/// leaves no zero coefficient behind.
pub proof fn lemma_drop_zero_props(s: Seq<(Variable, Fr)>)
    requires
        no_dup_vars(s),
        lc_ok(s),
    ensures
        no_dup_vars(spec_drop_zero(s)),
        lc_ok(spec_drop_zero(s)),
        forall|k: int| 0 <= k < spec_drop_zero(s).len() ==> (#[trigger] spec_drop_zero(
            s,
        )[k]).1.v != 0,
        forall|v: Variable| has_var(spec_drop_zero(s), v) ==> has_var(s, v),
    decreases s.len(),
{
    if s.len() > 0 {
        let d = s.drop_last();
        assert(no_dup_vars(d) && lc_ok(d)) by {
            assert(forall|k: int| 0 <= k < d.len() ==> d[k] == s[k]);
        }
        lemma_drop_zero_props(d);
        let r0 = spec_drop_zero(d);
        assert forall|v: Variable| has_var(spec_drop_zero(s), v) implies has_var(s, v) by {
            if has_var(spec_drop_zero(s), v) {
                let k = choose|k: int|
                    0 <= k < spec_drop_zero(s).len() && (#[trigger] spec_drop_zero(s)[k]).0 == v;
                if s.last().1.v != 0 && k == r0.len() {
                    assert(s[s.len() - 1].0 == v);
                } else {
                    assert(r0[k].0 == v);
                    assert(has_var(d, v));
                    let l = choose|l: int| 0 <= l < d.len() && (#[trigger] d[l]).0 == v;
                    assert(s[l].0 == v);
                }
            }
        }
        if s.last().1.v != 0 {
            let r = r0.push(s.last());
            assert forall|k: int, l: int| 0 <= k < l < r.len() implies (#[trigger] r[k]).0 != (
            #[trigger] r[l]).0 by {
                if l < r0.len() {
                    assert(r0[k].0 != r0[l].0);
                } else {
                    assert(r[l].0 == s.last().0);
                    assert(r0[k].0 == r[k].0);
                    if r0[k].0 == s.last().0 {
                        assert(has_var(r0, s.last().0)) by {
                            assert(r0[k].0 == s.last().0);
                        }
                        assert(has_var(d, s.last().0));
                        let m = choose|m: int|
                            0 <= m < d.len() && (#[trigger] d[m]).0 == s.last().0;
                        assert(s[m].0 == s.last().0);
                        assert(s[m].0 != s[s.len() - 1].0);
                    }
                }
            }
            assert forall|k: int| 0 <= k < r.len() implies fr_ok(#[trigger] r[k].1) && r[k].1.v
                != 0 by {
                if k < r0.len() {
                    assert(fr_ok(r0[k].1) && r0[k].1.v != 0);
                }
            }
        }
    }
}

/// Normalization yields a duplicate-free, well-formed combination without
/// zero coefficients.
pub proof fn lemma_normalize_props(s: Seq<(Variable, Fr)>)
    requires
        lc_ok(s),
    ensures
        no_dup_vars(spec_normalize(s)),
        lc_ok(spec_normalize(s)),
        forall|k: int| 0 <= k < spec_normalize(s).len() ==> (#[trigger] spec_normalize(
            s,
        )[k]).1.v != 0,
{
    lemma_merge_all_props(s);
    lemma_drop_zero_props(spec_merge_all(s));
}

/// A combination without ordinary terms references no ordinary variable.
proof fn lemma_non_one_empty_no_vars(s: Seq<(Variable, Fr)>)
    requires
        non_one_terms(s).len() == 0,
    ensures
        distinct_vars(s).len() == 0,
        distinct_vars(s) =~= Set::<Variable>::empty(),
    decreases s.len(),
{
    if s.len() > 0 {
        lemma_non_one_empty_no_vars(s.drop_last());
    }
}

/// The ordinary terms of a concatenation are the concatenated ordinary terms.
pub proof fn lemma_non_one_concat(a: Seq<(Variable, Fr)>, b: Seq<(Variable, Fr)>)
    ensures
        non_one_terms(a + b) == non_one_terms(a) + non_one_terms(b),
    decreases b.len(),
{
    if b.len() == 0 {
        assert(a + b =~= a);
        assert(non_one_terms(a) + non_one_terms(b) =~= non_one_terms(a));
    } else {
        lemma_non_one_concat(a, b.drop_last());
        assert((a + b).drop_last() =~= a + b.drop_last());
        assert((a + b).last() == b.last());
        if b.last().0 == one_variable() {
            assert(non_one_terms(b) == non_one_terms(b.drop_last()));
        } else {
            assert(non_one_terms(a) + non_one_terms(b) =~= (non_one_terms(a) + non_one_terms(
                b.drop_last(),
            )).push(b.last()));
        }
    }
}

/// The ordinary terms of a prefix are a prefix of the ordinary terms.
pub proof fn lemma_non_one_take_prefix(s: Seq<(Variable, Fr)>, i: int)
    requires
        0 <= i <= s.len(),
    ensures
        non_one_terms(s.take(i)).len() <= non_one_terms(s).len(),
        forall|j: int| 0 <= j < non_one_terms(s.take(i)).len() ==> non_one_terms(s.take(i))[j]
            == non_one_terms(s)[j],
{
    assert(s =~= s.take(i) + s.skip(i));
    lemma_non_one_concat(s.take(i), s.skip(i));
}

/// The ordinary terms of a well-formed combination are well formed.
pub proof fn lemma_non_one_ok(s: Seq<(Variable, Fr)>)
    requires
        lc_ok(s),
    ensures
        lc_ok(non_one_terms(s)),
        forall|j: int| 0 <= j < non_one_terms(s).len() ==> (#[trigger] non_one_terms(s)[j]).0
            != one_variable(),
    decreases s.len(),
{
    if s.len() > 0 {
        assert(lc_ok(s.drop_last())) by {
            assert(forall|k: int| 0 <= k < s.len() - 1 ==> s.drop_last()[k] == s[k]);
        }
        lemma_non_one_ok(s.drop_last());
        if s.last().0 != one_variable() {
            let r = non_one_terms(s.drop_last());
            assert(forall|j: int| 0 <= j < r.len() ==> r.push(s.last())[j] == r[j]);
        }
    }
}

/// The constant term of a well-formed combination is canonical.
pub proof fn lemma_const_term_ok(s: Seq<(Variable, Fr)>)
    requires
        lc_ok(s),
    ensures
        0 <= spec_const_term(s) < modulus(),
    decreases s.len(),
{
    if s.len() > 0 && s[0].0 != one_variable() {
        assert(lc_ok(s.drop_first())) by {
            assert(forall|k: int|
                0 <= k < s.drop_first().len() ==> s.drop_first()[k] == s[k + 1]);
        }
        lemma_const_term_ok(s.drop_first());
    }
}

/// Without a constant-one term the constant contribution is zero.
pub proof fn lemma_one_coeff_sum_absent(s: Seq<(Variable, Fr)>)
    requires
        forall|i: int| 0 <= i < s.len() ==> (#[trigger] s[i]).0 != one_variable(),
    ensures
        one_coeff_sum(s) == 0,
    decreases s.len(),
{
    if s.len() > 0 {
        assert(forall|i: int|
            0 <= i < s.len() - 1 ==> (#[trigger] s.drop_last()[i]) == s[i]);
        lemma_one_coeff_sum_absent(s.drop_last());
    }
}

/// A combination references no more variables than it has terms.
pub proof fn lemma_distinct_le_len(s: Seq<(Variable, Fr)>)
    ensures
        distinct_vars(s).len() <= s.len(),
    decreases s.len(),
{
    lemma_distinct_vars_finite(s);
    if s.len() > 0 {
        lemma_distinct_le_len(s.drop_last());
        lemma_distinct_vars_finite(s.drop_last());
    }
}

/// The canonical form has no more terms than the original.
pub proof fn lemma_normalize_le_len(s: Seq<(Variable, Fr)>)
    ensures
        spec_merge_all(s).len() <= s.len(),
        spec_drop_zero(spec_merge_all(s)).len() <= spec_merge_all(s).len(),
        spec_normalize(s).len() <= s.len(),
{
    lemma_merge_all_le_len(s);
    lemma_drop_zero_le_len(spec_merge_all(s));
}

proof fn lemma_merge_all_le_len(s: Seq<(Variable, Fr)>)
    ensures
        spec_merge_all(s).len() <= s.len(),
    decreases s.len(),
{
    if s.len() > 0 {
        lemma_merge_all_le_len(s.drop_last());
        lemma_find_var_char(spec_merge_all(s.drop_last()), s.last().0);
    }
}

proof fn lemma_drop_zero_le_len(s: Seq<(Variable, Fr)>)
    ensures
        spec_drop_zero(s).len() <= s.len(),
    decreases s.len(),
{
    if s.len() > 0 {
        lemma_drop_zero_le_len(s.drop_last());
    }
}

/// A duplicate-free combination that is not a bare constant references at
/// least one ordinary variable.
pub proof fn lemma_nonconstant_has_var(s: Seq<(Variable, Fr)>)
    requires
        no_dup_vars(s),
        !spec_is_constant(s),
    ensures
        distinct_vars(s).len() >= 1,
{
    lemma_distinct_vars_finite(s);
    if s.len() == 1 {
        assert(s[0].0 != one_variable());
        lemma_distinct_vars_contains(s, s[0].0);
        let v = s[0].0;
        assert(distinct_vars(s).contains(v));
        assert(distinct_vars(s).remove(v).len() == distinct_vars(s).len() - 1);
    } else {
        let v = if s[0].0 != one_variable() {
            s[0].0
        } else {
            s[1].0
        };
        assert(v != one_variable());
        lemma_distinct_vars_contains(s, v);
        assert(distinct_vars(s).contains(v));
        assert(distinct_vars(s).remove(v).len() == distinct_vars(s).len() - 1);
    }
}

/// Two singleton sets sharing an element are the same set.
pub proof fn lemma_singleton_sets_eq(s1: Set<Variable>, s2: Set<Variable>, x: Variable)
    requires
        s1.finite(),
        s2.finite(),
        s1.len() == 1,
        s2.len() == 1,
        s1.contains(x),
        s2.contains(x),
    ensures
        s1 == s2,
{
    assert forall|y: Variable| s1.contains(y) implies y == x by {
        if y != x {
            assert(s1.remove(x).contains(y));
            assert(s1.remove(x).len() == 0);
        }
    }
    assert forall|y: Variable| s2.contains(y) implies y == x by {
        if y != x {
            assert(s2.remove(x).contains(y));
            assert(s2.remove(x).len() == 0);
        }
    }
    assert(s1 =~= s2);
}

/// The last ordinary coefficient is the last ordinary term's coefficient.
pub proof fn lemma_last_non_one(s: Seq<(Variable, Fr)>)
    requires
        non_one_terms(s).len() > 0,
    ensures
        last_non_one_coeff(s) == non_one_terms(s).last().1.v as int,
    decreases s.len(),
{
    if s.len() > 0 && s.last().0 == one_variable() {
        lemma_last_non_one(s.drop_last());
    }
}

/// A bare constant evaluates to its constant term under every witness.
pub proof fn lemma_eval_constant(s: Seq<(Variable, Fr)>, w: Map<Variable, int>)
    requires
        spec_is_constant(s),
    ensures
        lc_eval(s, w) == spec_const_term(s),
{
    if s.len() == 1 {
        assert(s.drop_last() =~= Seq::<(Variable, Fr)>::empty());
        assert(lc_eval(Seq::<(Variable, Fr)>::empty(), w) == 0);
        assert(s.last() == s[0]);
        assert(term_value(s[0], w) == s[0].1.v as int);
    }
}

/// Every ordinary term's variable is in the variable set.
pub proof fn lemma_non_one_in_distinct(s: Seq<(Variable, Fr)>)
    ensures
        forall|j: int| 0 <= j < non_one_terms(s).len() ==> distinct_vars(s).contains(
            (#[trigger] non_one_terms(s)[j]).0,
        ),
    decreases s.len(),
{
    if s.len() > 0 {
        lemma_non_one_in_distinct(s.drop_last());
        let r = non_one_terms(s.drop_last());
        if s.last().0 != one_variable() {
            assert(forall|j: int| 0 <= j < r.len() ==> r.push(s.last())[j] == r[j]);
            assert(non_one_terms(s)[r.len() as int].0 == s.last().0);
        }
    }
}

/// Replacing one term shifts the value by the difference of the two terms.
proof fn lemma_eval_update(s: Seq<(Variable, Fr)>, i: int, t: (Variable, Fr), w: Map<
    Variable,
    int,
>)
    requires
        0 <= i < s.len(),
    ensures
        lc_eval(s.update(i, t), w) == lc_eval(s, w) - term_value(s[i], w) + term_value(t, w),
    decreases s.len(),
{
    let u = s.update(i, t);
    if i == s.len() - 1 {
        assert(u.drop_last() =~= s.drop_last());
        assert(u.last() == t);
    } else {
        assert(u.drop_last() =~= s.drop_last().update(i, t));
        assert(u.last() == s.last());
        lemma_eval_update(s.drop_last(), i, t, w);
        assert(s.drop_last()[i] == s[i]);
    }
}

/// Appending one term adds its contribution to the value.
proof fn lemma_eval_push(s: Seq<(Variable, Fr)>, t: (Variable, Fr), w: Map<Variable, int>)
    ensures
        lc_eval(s.push(t), w) == lc_eval(s, w) + term_value(t, w),
{
    assert(s.push(t).drop_last() =~= s);
    assert(s.push(t).last() == t);
}

/// Folding one term keeps the value, up to congruence.
proof fn lemma_merge_term_eval(acc: Seq<(Variable, Fr)>, t: (Variable, Fr), w: Map<Variable, int>)
    ensures
        eqm(lc_eval(spec_merge_term(acc, t), w), lc_eval(acc, w) + term_value(t, w)),
{
    lemma_find_var_char(acc, t.0);
    let i = spec_find_var(acc, t.0);
    if i < 0 {
        lemma_eval_push(acc, t, w);
        lemma_eqm_refl(lc_eval(acc, w) + term_value(t, w));
    } else {
        let c1 = acc[i].1.v as int;
        let c2 = t.1.v as int;
        let vv = var_value(t.0, w);
        let t2 = (t.0, Fr { v: fadd(c1, c2) as u64 });
        lemma_eval_update(acc, i, t2, w);
        assert(acc[i].0 == t.0);
        assert(term_value(acc[i], w) == c1 * vv);
        assert(term_value(t, w) == c2 * vv);
        lemma_fadd_bound(c1, c2);
        assert(term_value(t2, w) == fadd(c1, c2) * vv);
        lemma_fadd_eqm(c1, c2);
        lemma_eqm_refl(vv);
        lemma_eqm_mul(fadd(c1, c2), c1 + c2, vv, vv);
        assert((c1 + c2) * vv == c1 * vv + c2 * vv) by (nonlinear_arith);
        lemma_eqm_refl(lc_eval(acc, w) - c1 * vv);
        lemma_eqm_add(
            lc_eval(acc, w) - c1 * vv,
            lc_eval(acc, w) - c1 * vv,
            fadd(c1, c2) * vv,
            (c1 + c2) * vv,
        );
    }
}

/// Merging duplicate terms keeps the value, up to congruence.
pub proof fn lemma_merge_all_eval(s: Seq<(Variable, Fr)>, w: Map<Variable, int>)
    ensures
        eqm(lc_eval(spec_merge_all(s), w), lc_eval(s, w)),
    decreases s.len(),
{
    if s.len() == 0 {
        assert(spec_merge_all(s) =~= Seq::<(Variable, Fr)>::empty());
        lemma_eqm_refl(0);
    } else {
        let d = s.drop_last();
        lemma_merge_all_eval(d, w);
        lemma_merge_term_eval(spec_merge_all(d), s.last(), w);
        lemma_eqm_refl(term_value(s.last(), w));
        lemma_eqm_add(
            lc_eval(spec_merge_all(d), w),
            lc_eval(d, w),
            term_value(s.last(), w),
            term_value(s.last(), w),
        );
        lemma_eqm_trans(
            lc_eval(spec_merge_all(s), w),
            lc_eval(spec_merge_all(d), w) + term_value(s.last(), w),
            lc_eval(s, w),
        );
    }
}

/// Dropping zero coefficients keeps the value exactly.
pub proof fn lemma_drop_zero_eval(s: Seq<(Variable, Fr)>, w: Map<Variable, int>)
    ensures
        lc_eval(spec_drop_zero(s), w) == lc_eval(s, w),
    decreases s.len(),
{
    if s.len() > 0 {
        lemma_drop_zero_eval(s.drop_last(), w);
        if s.last().1.v == 0 {
            assert(term_value(s.last(), w) == 0);
        } else {
            lemma_eval_push(spec_drop_zero(s.drop_last()), s.last(), w);
        }
    }
}

/// Normalization keeps the value of a combination, up to congruence: no
/// witness can tell a combination from its canonical form.
pub proof fn lemma_normalize_eval(s: Seq<(Variable, Fr)>, w: Map<Variable, int>)
    ensures
        eqm(lc_eval(spec_normalize(s), w), lc_eval(s, w)),
{
    lemma_merge_all_eval(s, w);
    lemma_drop_zero_eval(spec_merge_all(s), w);
    lemma_eqm_refl(lc_eval(spec_normalize(s), w));
    lemma_eqm_trans(
        lc_eval(spec_normalize(s), w),
        lc_eval(spec_merge_all(s), w),
        lc_eval(s, w),
    );
}

/// Finds the first term on a variable, if any.
fn find_var(acc: &Vec<(Variable, Fr)>, x: Variable) -> (r: Option<usize>)
    ensures
        match r {
            Some(i) => i as int == spec_find_var(acc@, x) && 0 <= i < acc@.len()
                && acc@[i as int].0 == x,
            None => spec_find_var(acc@, x) == -1,
        },
{
    let n = acc.len();
    let mut i: usize = 0;
    while i < n
        invariant
            0 <= i <= n,
            n == acc@.len(),
            forall|j: int| 0 <= j < i ==> (#[trigger] acc@[j]).0 != x,
        decreases n - i,
    {
        let (var, _coeff) = acc[i];
        if var == x {
            proof {
                lemma_find_var_at(acc@, x, i as int);
            }
            return Some(i);
        }
        i += 1;
    }
    proof {
        lemma_find_var_none(acc@, x);
    }
    None
}

/// Rewrites a combination into its canonical form: terms on one variable are
/// merged by summing their coefficients, then zero-coefficient terms are
/// dropped. Every classifier and rewriter expects this form.
pub fn normalize(lc: &LinearCombination) -> (r: LinearCombination)
    requires
        lc_ok(lc@),
    ensures
        r@ == spec_normalize(lc@),
{
    let n = lc.terms.len();
    let mut acc: Vec<(Variable, Fr)> = Vec::new();
    let mut i: usize = 0;
    while i < n
        invariant
            0 <= i <= n,
            n == lc@.len(),
            lc_ok(lc@),
            acc@ == spec_merge_all(lc@.take(i as int)),
            lc_ok(acc@),
        decreases n - i,
    {
        let ghost pre = lc@.take(i as int);
        let ghost post = lc@.take(i as int + 1);
        proof {
            assert(post.drop_last() =~= pre);
            assert(post.last() == lc@[i as int]);
            assert(fr_ok(lc@[i as int].1));
        }
        let (var, coeff) = lc.terms[i];
        match find_var(&acc, var) {
            Some(j) => {
                let cur = acc[j];
                let merged = fr_add(cur.1, coeff);
                let ghost acc0 = acc@;
                acc.set(j, (var, merged));
                proof {
                    lemma_fadd_bound(cur.1.v as int, coeff.v as int);
                    assert(merged == (Fr { v: fadd(cur.1.v as int, coeff.v as int) as u64 }));
                    assert(acc@ == spec_merge_term(acc0, (var, coeff)));
                    assert forall|k: int| 0 <= k < acc@.len() implies fr_ok(
                        #[trigger] acc@[k].1,
                    ) by {
                        if k != j {
                            assert(acc@[k] == acc0[k]);
                        }
                    }
                }
            },
            None => {
                let ghost acc0 = acc@;
                acc.push((var, coeff));
                proof {
                    assert(acc@ == spec_merge_term(acc0, (var, coeff)));
                    assert forall|k: int| 0 <= k < acc@.len() implies fr_ok(
                        #[trigger] acc@[k].1,
                    ) by {
                        if k < acc0.len() {
                            assert(acc@[k] == acc0[k]);
                        }
                    }
                }
            },
        }
        i += 1;
    }
    proof {
        assert(lc@.take(n as int) =~= lc@);
    }
    let m = acc.len();
    let mut out: Vec<(Variable, Fr)> = Vec::new();
    let mut j: usize = 0;
    while j < m
        invariant
            0 <= j <= m,
            m == acc@.len(),
            acc@ == spec_merge_all(lc@),
            out@ == spec_drop_zero(acc@.take(j as int)),
        decreases m - j,
    {
        proof {
            assert(acc@.take(j as int + 1).drop_last() =~= acc@.take(j as int));
            assert(acc@.take(j as int + 1).last() == acc@[j as int]);
        }
        let (var, coeff) = acc[j];
        if coeff.v != 0 {
            out.push((var, coeff));
        }
        j += 1;
    }
    proof {
        assert(acc@.take(m as int) =~= acc@);
    }
    LinearCombination { terms: out }
}

} // verus!
