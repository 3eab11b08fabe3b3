//! The evaluation engine: finding the free variables of a tree,
//! reducing a tree to a boolean under one assignment, and assembling
//! the complete truth table.

use vstd::prelude::*;
use vstd::arithmetic::power2::pow2;
use vstd::arithmetic::power2::lemma_pow2_strictly_increases;
use vstd::arithmetic::power2::lemma2_to64;
use crate::expr::Expr;
use crate::expr::Operation;
use crate::expr::is_variable_char;
use crate::table::get_truth_table;
use crate::table::spec_row;

verus! {

/// The boolean value of one connective applied to two operands:
/// equality is boolean equality, inequality exclusive or, and the
/// conditional the material one, `!l || r`.
pub open spec fn spec_apply(op: Operation, l: bool, r: bool) -> bool {
    match op {
        Operation::Conjunction => l && r,
        Operation::Disjunction => l || r,
        Operation::Equality => l == r,
        Operation::Inequality => l != r,
        Operation::Conditional => !l || r,
    }
}

/// The value of a tree under an assignment of its variables.
pub open spec fn spec_eval(e: Expr, m: Map<char, bool>) -> bool
    decreases e,
{
    match e {
        Expr::Variable(c) => m[c],
        Expr::True => true,
        Expr::False => false,
        Expr::Operation(op, l, r) => spec_apply(op, spec_eval(*l, m), spec_eval(*r, m)),
        Expr::Negate(u) => !spec_eval(*u, m),
    }
}

/// The set of variable symbols a tree mentions.
pub open spec fn spec_vars(e: Expr) -> Set<char>
    decreases e,
{
    match e {
        Expr::Variable(c) => set![c],
        Expr::True => Set::empty(),
        Expr::False => Set::empty(),
        Expr::Operation(_, l, r) => spec_vars(*l) + spec_vars(*r),
        Expr::Negate(u) => spec_vars(*u),
    }
}

/// Strictly ascending by character code: sorted, with no duplicates.
pub open spec fn sorted_strict(s: Seq<char>) -> bool {
    forall|i: int, j: int| 0 <= i < j < s.len() ==> (s[i] as int) < (s[j] as int)
}

/// The value `vars` and `vals`, read as parallel columns, give to
/// `c`: the value beside the first occurrence of `c`.
pub open spec fn spec_lookup(vars: Seq<char>, vals: Seq<bool>, c: char) -> bool
    decreases vars.len(),
{
    if vars.len() == 0 {
        false
    } else if vars[0] == c {
        vals[0]
    } else {
        spec_lookup(vars.skip(1), vals.skip(1), c)
    }
}

/// The assignment that maps each variable of `vars` to the value
/// beside its first occurrence in `vals`.
pub open spec fn spec_assignment(vars: Seq<char>, vals: Seq<bool>) -> Map<char, bool> {
    Map::new(|c: char| vars.contains(c), |c: char| spec_lookup(vars, vals, c))
}

/// Every variable of a well-formed tree is an ASCII lowercase letter.
proof fn lemma_wf_vars(e: Expr)
    requires
        e.wf(),
    ensures
        forall|c: char| spec_vars(e).contains(c) ==> is_variable_char(c),
    decreases e,
{
    match e {
        Expr::Variable(_) => {},
        Expr::True => {},
        Expr::False => {},
        Expr::Operation(_, l, r) => {
            lemma_wf_vars(*l);
            lemma_wf_vars(*r);
        },
        Expr::Negate(u) => {
            lemma_wf_vars(*u);
        },
    }
}

/// In a strictly ascending sequence, codes grow at least as fast as
/// the index.
proof fn lemma_sorted_gap(s: Seq<char>, i: int, j: int)
    requires
        sorted_strict(s),
        0 <= i <= j < s.len(),
    ensures
        s[j] as int >= s[i] as int + (j - i),
    decreases j - i,
{
    if i < j {
        lemma_sorted_gap(s, i, j - 1);
    }
}

/// No more than 26 distinct ASCII lowercase letters exist.
proof fn lemma_var_count(s: Seq<char>)
    requires
        sorted_strict(s),
        forall|i: int| 0 <= i < s.len() ==> is_variable_char(s[i]),
    ensures
        s.len() <= 26,
{
    if s.len() > 26 {
        lemma_sorted_gap(s, 0, 26);
        assert(false);
    }
}

/// The distinct variable symbols of a tree, sorted ascending by
/// character code.
pub fn find_variables(in_expr: &Expr) -> (variables: Vec<char>)
    ensures
        sorted_strict(variables@),
        variables@.to_set() == spec_vars(*in_expr),
{
    let mut variables: Vec<char> = Vec::new();
    search(in_expr, &mut variables);
    proof {
        assert(variables@.to_set() =~= Seq::<char>::empty().to_set() + spec_vars(*in_expr));
    }
    variables
}

/// Walk the tree, keeping `out` sorted and duplicate-free while
/// adding every variable symbol met.
fn search(expr: &Expr, out: &mut Vec<char>)
    requires
        sorted_strict(old(out)@),
    ensures
        sorted_strict(final(out)@),
        final(out)@.to_set() == old(out)@.to_set() + spec_vars(*expr),
    decreases *expr,
{
    match expr {
        Expr::Variable(c) => {
            insert_sorted(out, *c);
            assert(out@.to_set() =~= old(out)@.to_set() + spec_vars(*expr));
        },
        Expr::True => {
            assert(out@.to_set() =~= old(out)@.to_set() + spec_vars(*expr));
        },
        Expr::False => {
            assert(out@.to_set() =~= old(out)@.to_set() + spec_vars(*expr));
        },
        Expr::Operation(_, l, r) => {
            search(&**l, out);
            search(&**r, out);
            assert(out@.to_set() =~= old(out)@.to_set() + spec_vars(*expr));
        },
        Expr::Negate(u) => {
            search(&**u, out);
            assert(out@.to_set() =~= old(out)@.to_set() + spec_vars(*expr));
        },
    }
}

/// Insert `c` into a strictly sorted vector, keeping it strictly
/// sorted; a symbol already present is not repeated.
fn insert_sorted(out: &mut Vec<char>, c: char)
    requires
        sorted_strict(old(out)@),
    ensures
        sorted_strict(final(out)@),
        final(out)@.to_set() == old(out)@.to_set().insert(c),
{
    let mut i: usize = 0;
    #[verifier::loop_isolation(false)]
    while i < out.len() && char_lt(out[i], c)
        invariant
            i <= out@.len(),
            forall|j: int| 0 <= j < i ==> (out@[j] as int) < (c as int),
        decreases out@.len() - i,
    {
        i = i + 1;
    }
    if i < out.len() && out[i] == c {
        proof {
            assert(out@.contains(c));
            assert(out@.to_set() =~= old(out)@.to_set().insert(c));
        }
    } else {
        proof {
            assert(i < out@.len() ==> (out@[i as int] as int) > (c as int));
        }
        let ghost before = out@;
        out.insert(i, c);
        proof {
            assert forall|a: int, b: int| 0 <= a < b < out@.len() implies (out@[a] as int) < (
            out@[b] as int) by {
                if b < i {
                    assert(out@[a] == before[a] && out@[b] == before[b]);
                } else if a > i {
                    assert(out@[a] == before[a - 1] && out@[b] == before[b - 1]);
                } else if a < i && b == i {
                    assert(out@[a] == before[a]);
                } else if a == i && b > i {
                    assert(out@[b] == before[b - 1]);
                } else if a < i && b > i {
                    assert(out@[a] == before[a] && out@[b] == before[b - 1]);
                }
            }
            assert forall|x: char| out@.contains(x) implies before.to_set().insert(c).contains(
                x,
            ) by {
                let k = choose|k: int| 0 <= k < out@.len() && out@[k] == x;
                if k < i {
                    assert(before[k] == x);
                    assert(before.contains(x));
                } else if k > i {
                    assert(before[k - 1] == x);
                    assert(before.contains(x));
                }
            }
            assert forall|x: char| before.to_set().insert(c).contains(x) implies out@.contains(
                x,
            ) by {
                if x == c {
                    assert(out@[i as int] == c);
                } else {
                    let k = choose|k: int| 0 <= k < before.len() && before[k] == x;
                    if k < i {
                        assert(out@[k] == x);
                    } else {
                        assert(out@[k + 1] == x);
                    }
                }
            }
            assert(out@.to_set() =~= before.to_set().insert(c));
        }
    }
}

/// Whether `a` comes before `b` in character-code order.
fn char_lt(a: char, b: char) -> (r: bool)
    ensures
        r == ((a as int) < (b as int)),
{
    (a as u32) < (b as u32)
}

/// The value beside the first occurrence of `c` in `vars`.
fn lookup(vars: &Vec<char>, vals: &Vec<bool>, c: char) -> (b: bool)
    requires
        vals@.len() == vars@.len(),
        vars@.contains(c),
    ensures
        b == spec_lookup(vars@, vals@, c),
{
    let mut i: usize = 0;
    proof {
        assert(vars@.skip(0) =~= vars@);
        assert(vals@.skip(0) =~= vals@);
    }
    #[verifier::loop_isolation(false)]
    while i < vars.len()
        invariant
            i <= vars@.len(),
            spec_lookup(vars@, vals@, c) == spec_lookup(
                vars@.skip(i as int),
                vals@.skip(i as int),
                c,
            ),
            vars@.skip(i as int).contains(c),
        decreases vars@.len() - i,
    {
        let ghost vr: Seq<char> = vars@.skip(i as int);
        let ghost vl: Seq<bool> = vals@.skip(i as int);
        assert(vr[0] == vars@[i as int] && vl[0] == vals@[i as int]);
        if vars[i] == c {
            return vals[i];
        }
        proof {
            assert(vr.skip(1) =~= vars@.skip(i + 1 as int));
            assert(vl.skip(1) =~= vals@.skip(i + 1 as int));
            let k = choose|k: int| 0 <= k < vr.len() && vr[k] == c;
            assert(vr.skip(1)[k - 1] == c);
            assert(vars@.skip(i + 1 as int).contains(c));
        }
        i = i + 1;
    }
    proof {
        assert(vars@.skip(vars@.len() as int).len() == 0);
        assert(false);
    }
    false
}

/// The value of a tree under the assignment that `vars` and `vals`
/// spell out. Every variable of the tree must be assigned; both
/// operands of a binary node are evaluated, with no short-circuit.
pub fn solve(expr: &Expr, vars: &Vec<char>, vals: &Vec<bool>) -> (b: bool)
    requires
        vals@.len() == vars@.len(),
        spec_vars(*expr).subset_of(vars@.to_set()),
    ensures
        b == spec_eval(*expr, spec_assignment(vars@, vals@)),
    decreases *expr,
{
    match expr {
        Expr::Variable(c) => {
            assert(vars@.to_set().contains(*c));
            lookup(vars, vals, *c)
        },
        Expr::True => true,
        Expr::False => false,
        Expr::Operation(op, l, r) => {
            let lv = solve(&**l, vars, vals);
            let rv = solve(&**r, vars, vals);
            match op {
                Operation::Conjunction => lv && rv,
                Operation::Disjunction => lv || rv,
                Operation::Equality => lv == rv,
                Operation::Inequality => lv != rv,
                Operation::Conditional => !lv || rv,
            }
        },
        Expr::Negate(u) => !solve(&**u, vars, vals),
    }
}

/// A complete truth table: the distinct variables in ascending
/// order, all of their boolean assignments as rows, and the matching
/// output column.
pub struct TruthTable {
    pub input_vars: Vec<char>,
    pub inputs: Vec<Vec<bool>>,
    pub outputs: Vec<bool>,
}

/// What makes `t` the truth table of `e`: variables sorted and
/// exactly the free ones, `2^k` rows counting down from all-true,
/// and for each row the tree's value under that row's assignment.
pub open spec fn table_for(e: Expr, t: TruthTable) -> bool {
    &&& sorted_strict(t.input_vars@)
    &&& t.input_vars@.to_set() == spec_vars(e)
    &&& t.inputs@.len() == pow2(t.input_vars@.len() as nat)
    &&& t.outputs@.len() == t.inputs@.len()
    &&& forall|i: int|
        0 <= i < t.inputs@.len() ==> t.inputs@[i]@ == spec_row(t.input_vars@.len() as nat, i)
    &&& forall|i: int|
        0 <= i < t.inputs@.len() ==> t.outputs@[i] == spec_eval(
            e,
            spec_assignment(t.input_vars@, t.inputs@[i]@),
        )
}

/// The truth table of a well-formed tree: one row per assignment of
/// its `k` distinct variables, `2^k` in all, in the canonical
/// descending order; a tree with no variables gets the one empty
/// assignment and its constant value.
pub fn solve_for_table(expr: Expr) -> (t: TruthTable)
    requires
        expr.wf(),
    ensures
        table_for(expr, t),
        t.input_vars@.len() == spec_vars(expr).len(),
{
    let variables = find_variables(&expr);
    proof {
        lemma_wf_vars(expr);
        assert forall|i: int| 0 <= i < variables@.len() implies is_variable_char(
            variables@[i],
        ) by {
            assert(variables@.contains(variables@[i]));
            assert(variables@.to_set().contains(variables@[i]));
        }
        lemma_var_count(variables@);
        lemma2_to64();
        if variables@.len() < 26 {
            lemma_pow2_strictly_increases(variables@.len() as nat, 26);
        }
        assert(pow2(variables@.len() as nat) <= 0x4000000);
        assert forall|i: int, j: int| 0 <= i < variables@.len() && 0 <= j < variables@.len() && i
            != j implies variables@[i] != variables@[j] by {
            if i < j {
                assert((variables@[i] as int) < (variables@[j] as int));
            } else {
                assert((variables@[j] as int) < (variables@[i] as int));
            }
        }
        variables@.unique_seq_to_set();
    }
    let truth_table_inputs = get_truth_table(variables.len());
    let mut outputs: Vec<bool> = Vec::new();
    let mut i: usize = 0;
    #[verifier::loop_isolation(false)]
    while i < truth_table_inputs.len()
        invariant
            i <= truth_table_inputs@.len(),
            outputs@.len() == i,
            forall|j: int|
                0 <= j < i ==> outputs@[j] == spec_eval(
                    expr,
                    spec_assignment(variables@, truth_table_inputs@[j]@),
                ),
        decreases truth_table_inputs@.len() - i,
    {
        let row = &truth_table_inputs[i];
        assert(row@ == spec_row(variables@.len() as nat, i as int));
        let out = solve(&expr, &variables, row);
        outputs.push(out);
        i = i + 1;
    }
    TruthTable { input_vars: variables, inputs: truth_table_inputs, outputs }
}

} // verus!
