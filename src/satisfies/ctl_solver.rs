use std::collections::HashMap;
use std::rc::Rc;
use typed_arena::Arena;
use vstd::prelude::*;
use vstd::set_lib::{lemma_int_range, lemma_len_subset, set_int_range};

use crate::formulas::{bin, un, CTLFactory, CTLFormula, CtlBinOp, CtlNode, CtlTree, CtlUnOp};
use crate::models::{set_of, Kripke, Model};

verus! {

/// `f` applied `i` times to `s`.
pub open spec fn iterate(f: spec_fn(Set<int>) -> Set<int>, s: Set<int>, i: nat) -> Set<int>
    decreases i,
{
    if i == 0 {
        s
    } else {
        f(iterate(f, s, (i - 1) as nat))
    }
}

/// One round of the least fixed point for `EU`: add the states of `a` that
/// have a successor in the current set.
pub open spec fn eu_step(k: Kripke, a: Set<int>) -> spec_fn(Set<int>) -> Set<int> {
    |s: Set<int>| s.union(k.pre_e(s).intersect(a))
}

/// One round of the least fixed point for `AF`: add the states all of whose
/// successors lie in the current set.
pub open spec fn af_step(k: Kripke) -> spec_fn(Set<int>) -> Set<int> {
    |s: Set<int>| s.union(k.pre_a(s))
}

/// The states satisfying `EU(a, b)`, given the states `a` and `b` of its
/// operands.
pub open spec fn eu_set(k: Kripke, a: Set<int>, b: Set<int>) -> Set<int> {
    iterate(eu_step(k, a), b, k.n() as nat)
}

/// The states satisfying `AF a`, given the states `a` of its operand.
pub open spec fn af_set(k: Kripke, a: Set<int>) -> Set<int> {
    iterate(af_step(k), a, k.n() as nat)
}

/// The states of `k` at which `f` holds. `EX`, `EU` and `AF` are computed
/// directly; every other connective is the rewrite into those and the
/// boolean ones.
pub open spec fn sat(k: Kripke, f: CtlTree) -> Set<int>
    decreases f,
{
    match f {
        CtlTree::Top => k.all(),
        CtlTree::Bot => Set::empty(),
        CtlTree::Atomic(p) => k.containing(p),
        CtlTree::Unary(op, a) => {
            let s = sat(k, *a);
            match op {
                CtlUnOp::Neg => k.complement(s),
                CtlUnOp::EX => k.pre_e(s),
                CtlUnOp::AF => af_set(k, s),
                CtlUnOp::AX => k.complement(k.pre_e(k.complement(s))),
                CtlUnOp::EF => eu_set(k, k.all(), s),
                CtlUnOp::EG => k.complement(af_set(k, k.complement(s))),
                CtlUnOp::AG => k.complement(eu_set(k, k.all(), k.complement(s))),
            }
        },
        CtlTree::Binary(op, a, b) => {
            let sa = sat(k, *a);
            let sb = sat(k, *b);
            match op {
                CtlBinOp::And => sa.intersect(sb),
                CtlBinOp::Or => sa.union(sb),
                CtlBinOp::EU => eu_set(k, sa, sb),
                CtlBinOp::ImpliesR => k.complement(sa).union(sb),
                CtlBinOp::ImpliesL => sa.union(k.complement(sb)),
                CtlBinOp::BiImplies => k.complement(sa).union(sb).intersect(
                    k.complement(sb).union(sa),
                ),
                CtlBinOp::AU => k.complement(
                    eu_set(k, k.complement(sb), k.complement(sa).intersect(k.complement(sb))),
                ).union(k.complement(af_set(k, k.complement(k.complement(sb))))),
            }
        },
    }
}

/// A measure that every rewrite of the solver makes smaller.
pub open spec fn weight(f: CtlTree) -> nat
    decreases f,
{
    match f {
        CtlTree::Unary(op, a) => {
            let w = weight(*a);
            match op {
                CtlUnOp::Neg | CtlUnOp::EX | CtlUnOp::AF => 1 + w,
                CtlUnOp::EF => 3 + w,
                CtlUnOp::EG | CtlUnOp::AX => 4 + w,
                CtlUnOp::AG => 6 + w,
            }
        },
        CtlTree::Binary(op, a, b) => {
            let wa = weight(*a);
            let wb = weight(*b);
            match op {
                CtlBinOp::And | CtlBinOp::Or | CtlBinOp::EU => 1 + wa + wb,
                CtlBinOp::ImpliesR | CtlBinOp::ImpliesL => 3 + wa + wb,
                CtlBinOp::BiImplies => 8 + 2 * wa + 2 * wb,
                CtlBinOp::AU => 13 + wa + 3 * wb,
            }
        },
        _ => 1,
    }
}

/// A step that only adds states, and only states of `k`.
pub open spec fn grows_within(k: Kripke, f: spec_fn(Set<int>) -> Set<int>) -> bool {
    forall|s: Set<int>| s.subset_of(k.all()) ==> s.subset_of(#[trigger] f(s)) && f(s).subset_of(k.all())
}

proof fn lemma_all_finite(k: Kripke)
    ensures
        k.all().finite(),
        k.all().len() == if k.n() >= 0 { k.n() } else { 0 },
{
    assert(k.all() =~= set_int_range(0, k.n()));
    lemma_int_range(0, k.n());
}

proof fn lemma_eu_step_grows(k: Kripke, a: Set<int>)
    ensures
        grows_within(k, eu_step(k, a)),
{
}

proof fn lemma_af_step_grows(k: Kripke)
    ensures
        grows_within(k, af_step(k)),
{
}

proof fn lemma_iterate_within(k: Kripke, f: spec_fn(Set<int>) -> Set<int>, s: Set<int>, i: nat)
    requires
        grows_within(k, f),
        s.subset_of(k.all()),
    ensures
        iterate(f, s, i).subset_of(k.all()),
        s.subset_of(iterate(f, s, i)),
    decreases i,
{
    if i > 0 {
        lemma_iterate_within(k, f, s, (i - 1) as nat);
    }
}

/// Once a round changes nothing, no later round does.
proof fn lemma_iterate_stable(f: spec_fn(Set<int>) -> Set<int>, s: Set<int>, i: nat, j: nat)
    requires
        iterate(f, s, i + 1) == iterate(f, s, i),
        i <= j,
    ensures
        iterate(f, s, j) == iterate(f, s, i),
    decreases j - i,
{
    if j > i {
        lemma_iterate_stable(f, s, i, (j - 1) as nat);
    }
}

/// While every round adds a state, the set has grown by one state per round.
proof fn lemma_iterate_growth(k: Kripke, f: spec_fn(Set<int>) -> Set<int>, s: Set<int>, i: nat)
    requires
        grows_within(k, f),
        s.subset_of(k.all()),
        forall|j: nat| j < i ==> #[trigger] iterate(f, s, j + 1) != iterate(f, s, j),
    ensures
        iterate(f, s, i).finite(),
        iterate(f, s, i).len() >= i,
    decreases i,
{
    lemma_all_finite(k);
    lemma_iterate_within(k, f, s, i);
    lemma_len_subset(iterate(f, s, i), k.all());
    if i > 0 {
        let p = (i - 1) as nat;
        lemma_iterate_growth(k, f, s, p);
        lemma_iterate_within(k, f, s, p);
        let prev = iterate(f, s, p);
        let next = iterate(f, s, i);
        assert(next == f(prev));
        assert(iterate(f, s, p + 1) != iterate(f, s, p));
        assert(prev.subset_of(next));
        assert(!next.subset_of(prev)) by {
            if next.subset_of(prev) {
                assert(next =~= prev);
            }
        }
        let x = choose|x: int| next.contains(x) && !prev.contains(x);
        prev.lemma_subset_not_in_lt(next, x);
    }
}

/// A growing iteration within the states of `k` stops changing after at
/// most as many rounds as `k` has states.
proof fn lemma_iterate_halts(k: Kripke, f: spec_fn(Set<int>) -> Set<int>, s: Set<int>) -> (i: nat)
    requires
        grows_within(k, f),
        s.subset_of(k.all()),
    ensures
        i <= k.n(),
        iterate(f, s, i + 1) == iterate(f, s, i),
{
    lemma_all_finite(k);
    let n = if k.n() >= 0 { k.n() as nat } else { 0 };
    if forall|j: nat| j < n + 1 ==> #[trigger] iterate(f, s, j + 1) != iterate(f, s, j) {
        lemma_iterate_growth(k, f, s, n + 1);
        lemma_iterate_within(k, f, s, n + 1);
        lemma_len_subset(iterate(f, s, n + 1), k.all());
        assert(false);
        0
    } else {
        let j = choose|j: nat| j < n + 1 && #[trigger] iterate(f, s, j + 1) == iterate(f, s, j);
        j
    }
}

/// The `EU` iteration reaches its fixed point within as many rounds as the
/// model has states.
pub proof fn lemma_eu_halts(k: Kripke, a: Set<int>, b: Set<int>)
    requires
        b.subset_of(k.all()),
    ensures
        exists|i: nat|
            i <= k.n() && #[trigger] iterate(eu_step(k, a), b, i + 1) == iterate(eu_step(k, a), b, i),
{
    lemma_eu_step_grows(k, a);
    let i = lemma_iterate_halts(k, eu_step(k, a), b);
    assert(iterate(eu_step(k, a), b, i + 1) == iterate(eu_step(k, a), b, i));
}

/// The `AF` iteration reaches its fixed point within as many rounds as the
/// model has states.
pub proof fn lemma_af_halts(k: Kripke, a: Set<int>)
    requires
        a.subset_of(k.all()),
    ensures
        exists|i: nat| i <= k.n() && #[trigger] iterate(af_step(k), a, i + 1) == iterate(af_step(k), a, i),
{
    lemma_af_step_grows(k);
    let i = lemma_iterate_halts(k, af_step(k), a);
    assert(iterate(af_step(k), a, i + 1) == iterate(af_step(k), a, i));
}

/// Every formula holds only at states of the model.
pub proof fn lemma_sat_within(k: Kripke, f: CtlTree)
    ensures
        sat(k, f).subset_of(k.all()),
    decreases f,
{
    match f {
        CtlTree::Unary(op, a) => {
            lemma_sat_within(k, *a);
            let s = sat(k, *a);
            lemma_eu_step_grows(k, k.all());
            lemma_af_step_grows(k);
            lemma_iterate_within(k, eu_step(k, k.all()), s, k.n() as nat);
            lemma_iterate_within(k, af_step(k), s, k.n() as nat);
        },
        CtlTree::Binary(op, a, b) => {
            lemma_sat_within(k, *a);
            lemma_sat_within(k, *b);
            let sa = sat(k, *a);
            let sb = sat(k, *b);
            lemma_eu_step_grows(k, sa);
            lemma_iterate_within(k, eu_step(k, sa), sb, k.n() as nat);
        },
        _ => {},
    }
}

/// `Neg Neg f` holds where `f` holds.
pub proof fn lemma_double_negation(k: Kripke, f: CtlTree)
    ensures
        sat(k, un(CtlUnOp::Neg, un(CtlUnOp::Neg, f))) == sat(k, f),
{
    lemma_sat_within(k, f);
    reveal_with_fuel(sat, 3);
    assert(sat(k, un(CtlUnOp::Neg, un(CtlUnOp::Neg, f))) =~= sat(k, f));
}

/// `And(f, f)` holds where `f` holds.
pub proof fn lemma_and_idempotent(k: Kripke, f: CtlTree)
    ensures
        sat(k, bin(CtlBinOp::And, f, f)) == sat(k, f),
{
    assert(sat(k, bin(CtlBinOp::And, f, f)) =~= sat(k, f));
}

/// `Or(f, Neg f)` holds at every state.
pub proof fn lemma_excluded_middle(k: Kripke, f: CtlTree)
    ensures
        sat(k, bin(CtlBinOp::Or, f, un(CtlUnOp::Neg, f))) == k.all(),
{
    lemma_sat_within(k, f);
    reveal_with_fuel(sat, 3);
    assert(sat(k, bin(CtlBinOp::Or, f, un(CtlUnOp::Neg, f))) =~= k.all());
}

/// `EF f` holds where `EU(Top, f)` holds.
pub proof fn lemma_ef_is_eu(k: Kripke, f: CtlTree)
    ensures
        sat(k, un(CtlUnOp::EF, f)) == sat(k, bin(CtlBinOp::EU, CtlTree::Top, f)),
{
    reveal_with_fuel(sat, 3);
}

/// `AG f` holds exactly where `EF(Neg f)` does not.
pub proof fn lemma_ag_is_not_ef_not(k: Kripke, f: CtlTree)
    ensures
        sat(k, un(CtlUnOp::AG, f)) == k.complement(sat(k, un(CtlUnOp::EF, un(CtlUnOp::Neg, f)))),
{
    reveal_with_fuel(sat, 3);
}

// ---------------------------------------------------------------------------
// The solver: sets of states as membership vectors, and the memo of one query.

/// Declares `typed_arena::Arena`: an append-only store whose values keep
/// their place while more are added, which holds the sets computed during
/// one query.
#[verifier::external_type_specification]
#[verifier::external_body]
#[verifier::reject_recursive_types(T)]
pub struct ExArena<T>(Arena<T>);

/// Relies on `typed_arena::Arena::new`: it makes an empty arena.
pub assume_specification<T>[ Arena::<T>::new ]() -> Arena<T>;

/// Relies on `typed_arena::Arena::alloc`: it moves `value` into the arena and
/// returns a reference to it that lives as long as the arena.
#[verifier::external_body]
fn arena_alloc<'a, T>(arena: &'a Arena<T>, value: T) -> (r: &'a T)
    ensures
        *r == value,
{
    arena.alloc(value)
}

proof fn lemma_set_of_within(k: Kripke, s: Seq<bool>)
    requires
        s.len() == k.n(),
    ensures
        set_of(s).subset_of(k.all()),
        set_of(s).finite(),
        set_of(s).len() <= s.len(),
{
    lemma_all_finite(k);
    lemma_len_subset(set_of(s), k.all());
}

fn empty_set(n: usize) -> (r: Vec<bool>)
    ensures
        r.len() == n,
        set_of(r@) == Set::<int>::empty(),
{
    let mut r: Vec<bool> = Vec::new();
    let mut i: usize = 0;
    while i < n
        invariant
            i <= n,
            r.len() == i,
            forall|k: int| 0 <= k < i ==> !r@[k],
        decreases n - i,
    {
        r.push(false);
        i += 1;
    }
    assert(set_of(r@) =~= Set::<int>::empty());
    r
}

fn copy_set(a: &Vec<bool>) -> (r: Vec<bool>)
    ensures
        r@ == a@,
{
    let mut r: Vec<bool> = Vec::new();
    let mut i: usize = 0;
    while i < a.len()
        invariant
            i <= a.len(),
            r@ == a@.subrange(0, i as int),
        decreases a.len() - i,
    {
        r.push(a[i]);
        i += 1;
    }
    assert(r@ =~= a@);
    r
}

fn intersection(a: &Vec<bool>, b: &Vec<bool>) -> (r: Vec<bool>)
    requires
        a.len() == b.len(),
    ensures
        r.len() == a.len(),
        set_of(r@) == set_of(a@).intersect(set_of(b@)),
{
    let mut r: Vec<bool> = Vec::new();
    let mut i: usize = 0;
    while i < a.len()
        invariant
            a.len() == b.len(),
            i <= a.len(),
            r.len() == i,
            forall|k: int| 0 <= k < i ==> r@[k] == (a@[k] && b@[k]),
        decreases a.len() - i,
    {
        r.push(a[i] && b[i]);
        i += 1;
    }
    assert(set_of(r@) =~= set_of(a@).intersect(set_of(b@)));
    r
}

fn union(a: &Vec<bool>, b: &Vec<bool>) -> (r: Vec<bool>)
    requires
        a.len() == b.len(),
    ensures
        r.len() == a.len(),
        set_of(r@) == set_of(a@).union(set_of(b@)),
{
    let mut r: Vec<bool> = Vec::new();
    let mut i: usize = 0;
    while i < a.len()
        invariant
            a.len() == b.len(),
            i <= a.len(),
            r.len() == i,
            forall|k: int| 0 <= k < i ==> r@[k] == (a@[k] || b@[k]),
        decreases a.len() - i,
    {
        r.push(a[i] || b[i]);
        i += 1;
    }
    assert(set_of(r@) =~= set_of(a@).union(set_of(b@)));
    r
}

fn same_set(a: &Vec<bool>, b: &Vec<bool>) -> (r: bool)
    requires
        a.len() == b.len(),
    ensures
        r == (a@ == b@),
{
    let mut i: usize = 0;
    while i < a.len()
        invariant
            a.len() == b.len(),
            i <= a.len(),
            forall|k: int| 0 <= k < i ==> a@[k] == b@[k],
        decreases a.len() - i,
    {
        if a[i] != b[i] {
            return false;
        }
        i += 1;
    }
    assert(a@ =~= b@);
    true
}

/// Any round at which the iteration is stable gives the set after `n` rounds.
proof fn lemma_fixed_point_is_result(k: Kripke, f: spec_fn(Set<int>) -> Set<int>, s: Set<int>, r: nat)
    requires
        grows_within(k, f),
        s.subset_of(k.all()),
        iterate(f, s, r + 1) == iterate(f, s, r),
    ensures
        iterate(f, s, k.n() as nat) == iterate(f, s, r),
{
    let i = lemma_iterate_halts(k, f, s);
    let n = k.n() as nat;
    if r <= n {
        lemma_iterate_stable(f, s, r, n);
    } else {
        lemma_iterate_stable(f, s, i, n);
        lemma_iterate_stable(f, s, i, r);
    }
}

/// A round that changes the membership vector adds a state: the set of
/// the next round is larger.
proof fn lemma_round_grows(
    k: Kripke,
    f: spec_fn(Set<int>) -> Set<int>,
    start: Set<int>,
    rounds: nat,
    s: Seq<bool>,
    next: Seq<bool>,
)
    requires
        grows_within(k, f),
        start.subset_of(k.all()),
        s.len() == k.n(),
        next.len() == k.n(),
        set_of(s) == iterate(f, start, rounds),
        set_of(next) == iterate(f, start, rounds + 1),
        next != s,
    ensures
        set_of(s).len() < set_of(next).len(),
        set_of(next).len() <= k.n(),
{
    lemma_set_of_within(k, s);
    lemma_set_of_within(k, next);
    lemma_iterate_within(k, f, start, rounds);
    assert(set_of(s).subset_of(set_of(next)));
    assert(set_of(next) != set_of(s)) by {
        if set_of(next) == set_of(s) {
            assert forall|i: int| 0 <= i < s.len() implies next[i] == s[i] by {
                assert(set_of(next).contains(i) == set_of(s).contains(i));
            }
            assert(next =~= s);
        }
    }
    assert(!set_of(next).subset_of(set_of(s))) by {
        if set_of(next).subset_of(set_of(s)) {
            assert(set_of(next) =~= set_of(s));
        }
    }
    let x = choose|x: int| set_of(next).contains(x) && !set_of(s).contains(x);
    set_of(s).lemma_subset_not_in_lt(set_of(next), x);
}

/// The states satisfying `EU` over the operand sets `a` and `b`: starting
/// from `b`, add the states of `a` with a successor in the set, until a round
/// adds nothing.
fn sat_eu(model: &Model, a: &Vec<bool>, b: &Vec<bool>) -> (r: Vec<bool>)
    requires
        model.inv(),
        a.len() == model@.n(),
        b.len() == model@.n(),
    ensures
        r.len() == model@.n(),
        set_of(r@) == eu_set(model@, set_of(a@), set_of(b@)),
{
    let ghost k = model@;
    let ghost f = eu_step(k, set_of(a@));
    let ghost start = set_of(b@);
    proof {
        lemma_eu_step_grows(k, set_of(a@));
        lemma_set_of_within(k, b@);
    }
    let mut s = copy_set(b);
    let ghost mut rounds: nat = 0;
    loop
        invariant
            model.inv(),
            k == model@,
            f == eu_step(k, set_of(a@)),
            grows_within(k, f),
            start == set_of(b@),
            start.subset_of(k.all()),
            a.len() == k.n(),
            s.len() == k.n(),
            set_of(s@) == iterate(f, start, rounds),
        decreases k.n() - set_of(s@).len(),
    {
        proof {
            lemma_set_of_within(k, s@);
        }
        let pe = model.pre_e_idx(&s);
        let add = intersection(&pe, a);
        let next = union(&s, &add);
        assert(set_of(next@) == iterate(f, start, rounds + 1));
        if same_set(&next, &s) {
            proof {
                lemma_fixed_point_is_result(k, f, start, rounds);
            }
            return s;
        }
        proof {
            lemma_round_grows(k, f, start, rounds, s@, next@);
        }
        s = next;
        proof {
            rounds = rounds + 1;
        }
    }
}

/// The states satisfying `AF` over the operand set `a`: starting from `a`,
/// add the states all of whose successors are in the set, until a round adds
/// nothing.
fn sat_af(model: &Model, a: &Vec<bool>) -> (r: Vec<bool>)
    requires
        model.inv(),
        a.len() == model@.n(),
    ensures
        r.len() == model@.n(),
        set_of(r@) == af_set(model@, set_of(a@)),
{
    let ghost k = model@;
    let ghost f = af_step(k);
    let ghost start = set_of(a@);
    proof {
        lemma_af_step_grows(k);
        lemma_set_of_within(k, a@);
    }
    let mut s = copy_set(a);
    let ghost mut rounds: nat = 0;
    loop
        invariant
            model.inv(),
            k == model@,
            f == af_step(k),
            grows_within(k, f),
            start == set_of(a@),
            start.subset_of(k.all()),
            s.len() == k.n(),
            set_of(s@) == iterate(f, start, rounds),
        decreases k.n() - set_of(s@).len(),
    {
        proof {
            lemma_set_of_within(k, s@);
        }
        let pa = model.pre_a_idx(&s);
        let next = union(&s, &pa);
        assert(set_of(next@) == iterate(f, start, rounds + 1));
        if same_set(&next, &s) {
            proof {
                lemma_fixed_point_is_result(k, f, start, rounds);
            }
            return s;
        }
        proof {
            lemma_round_grows(k, f, start, rounds, s@, next@);
        }
        s = next;
        proof {
            rounds = rounds + 1;
        }
    }
}

/// The rewrite of `AU(a, b)` holds where `AU(a, b)` does, and weighs less.
proof fn lemma_au_rewrite(k: Kripke, ta: CtlTree, tb: CtlTree)
    ensures
        ({
            let t_nb = un(CtlUnOp::Neg, tb);
            let t_both = bin(CtlBinOp::And, un(CtlUnOp::Neg, ta), t_nb);
            let t_until = bin(CtlBinOp::EU, t_nb, t_both);
            let whole = bin(CtlBinOp::Or, un(CtlUnOp::Neg, t_until), un(CtlUnOp::EG, t_nb));
            &&& sat(k, whole) == sat(k, bin(CtlBinOp::AU, ta, tb))
            &&& weight(whole) < weight(bin(CtlBinOp::AU, ta, tb))
        }),
{
    let sa = sat(k, ta);
    let sb = sat(k, tb);
    let t_nb = un(CtlUnOp::Neg, tb);
    let t_both = bin(CtlBinOp::And, un(CtlUnOp::Neg, ta), t_nb);
    let t_until = bin(CtlBinOp::EU, t_nb, t_both);
    let t_right = un(CtlUnOp::EG, t_nb);
    let whole = bin(CtlBinOp::Or, un(CtlUnOp::Neg, t_until), t_right);
    assert(sat(k, t_nb) == k.complement(sb));
    assert(sat(k, un(CtlUnOp::Neg, ta)) == k.complement(sa));
    assert(sat(k, t_both) == k.complement(sa).intersect(k.complement(sb)));
    assert(sat(k, t_until) == eu_set(
        k,
        k.complement(sb),
        k.complement(sa).intersect(k.complement(sb)),
    ));
    assert(sat(k, t_right) == k.complement(af_set(k, k.complement(k.complement(sb)))));
    assert(sat(k, un(CtlUnOp::Neg, t_until)) == k.complement(sat(k, t_until)));
    assert(sat(k, bin(CtlBinOp::AU, ta, tb)) == k.complement(
        eu_set(k, k.complement(sb), k.complement(sa).intersect(k.complement(sb))),
    ).union(k.complement(af_set(k, k.complement(k.complement(sb))))));
    assert(sat(k, whole) == sat(k, bin(CtlBinOp::AU, ta, tb)));
    let wa = weight(ta);
    let wb = weight(tb);
    assert(weight(t_nb) == 1 + wb);
    assert(weight(un(CtlUnOp::Neg, ta)) == 1 + wa);
    assert(weight(t_both) == 3 + wa + wb);
    assert(weight(t_until) == 5 + wa + 2 * wb);
    assert(weight(un(CtlUnOp::Neg, t_until)) == 6 + wa + 2 * wb);
    assert(weight(t_right) == 5 + wb);
    assert(weight(whole) == 12 + wa + 3 * wb);
}

/// A membership vector is fixed by its length and its set.
proof fn lemma_set_of_injective(a: Seq<bool>, b: Seq<bool>)
    requires
        a.len() == b.len(),
        set_of(a) == set_of(b),
    ensures
        a == b,
{
    assert forall|i: int| 0 <= i < a.len() implies a[i] == b[i] by {
        assert(set_of(a).contains(i) == a[i]);
        assert(set_of(b).contains(i) == b[i]);
        assert(set_of(a).contains(i) == set_of(b).contains(i));
    }
    assert(a =~= b);
}

/// Whether `v` is the set of states at which entry `id` of `f` holds.
pub open spec fn entry_ok(k: Kripke, f: &CTLFactory, id: usize, v: Seq<bool>) -> bool {
    &&& id < f.len()
    &&& v.len() == k.n()
    &&& set_of(v) == sat(k, f.term(id as int))
}

fn copy_node(n: &CtlNode) -> (r: CtlNode)
    ensures
        r == *n,
{
    match n {
        CtlNode::Top => CtlNode::Top,
        CtlNode::Bot => CtlNode::Bot,
        CtlNode::Atomic(s) => CtlNode::Atomic(s.clone()),
        CtlNode::Unary(op, a) => CtlNode::Unary(*op, *a),
        CtlNode::Binary(op, a, b) => CtlNode::Binary(*op, *a, *b),
    }
}

fn mk_un(f: &mut CTLFactory, op: CtlUnOp, c: usize) -> (r: usize)
    requires
        old(f).wf(),
        c < old(f).len(),
    ensures
        final(f).wf(),
        final(f).extends(old(f)),
        final(f).keeps_terms(old(f)),
        r < final(f).len(),
        final(f).term(r as int) == un(op, old(f).term(c as int)),
{
    f.make(CtlNode::Unary(op, c))
}

fn mk_bin(f: &mut CTLFactory, op: CtlBinOp, a: usize, b: usize) -> (r: usize)
    requires
        old(f).wf(),
        a < old(f).len(),
        b < old(f).len(),
    ensures
        final(f).wf(),
        final(f).extends(old(f)),
        final(f).keeps_terms(old(f)),
        r < final(f).len(),
        final(f).term(r as int) == bin(op, old(f).term(a as int), old(f).term(b as int)),
{
    f.make(CtlNode::Binary(op, a, b))
}

/// The scratch state of one query: the memo of the sets computed so far,
/// which live in the arena or in the persistent cache.
struct SolverRun<'a> {
    memo: HashMap<usize, &'a Vec<bool>>,
    arena: &'a Arena<Vec<bool>>,
    cache: &'a HashMap<usize, Vec<bool>>,
    fresh: Vec<usize>,
}

impl<'a> SolverRun<'a> {
    spec fn ok(&self, k: Kripke, f: &CTLFactory) -> bool {
        &&& forall|id: usize| #[trigger]
            self.memo@.contains_key(id) ==> entry_ok(k, f, id, self.memo@[id]@)
        &&& forall|id: usize| #[trigger]
            self.cache@.contains_key(id) ==> entry_ok(k, f, id, self.cache@[id]@)
        &&& forall|x: int| 0 <= x < self.fresh.len() ==> self.memo@.contains_key(#[trigger] self.fresh@[x])
        &&& forall|id: usize| #[trigger]
            self.memo@.contains_key(id) ==> self.fresh@.contains(id) || self.cache@.contains_key(id)
    }

    /// Whether `self` is `old` with more answers in the memo.
    spec fn grows(&self, old: &SolverRun<'a>) -> bool {
        &&& self.cache == old.cache
        &&& self.arena == old.arena
        &&& old.fresh@.len() <= self.fresh@.len()
        &&& forall|x: int| 0 <= x < old.fresh@.len() ==> #[trigger] self.fresh@[x] == old.fresh@[x]
        &&& forall|key: usize| #[trigger]
            old.memo@.contains_key(key) ==> self.memo@.contains_key(key) && self.memo@[key]@
                == old.memo@[key]@
    }

    proof fn lemma_ok_extends(&self, k: Kripke, f0: &CTLFactory, f1: &CTLFactory)
        requires
            self.ok(k, f0),
            f1.extends(f0),
            f1.keeps_terms(f0),
        ensures
            self.ok(k, f1),
    {
        assert forall|id: usize| #[trigger] self.memo@.contains_key(id) implies entry_ok(
            k,
            f1,
            id,
            self.memo@[id]@,
        ) by {
            assert(f1.term(id as int) == f0.term(id as int));
        }
        assert forall|id: usize| #[trigger] self.cache@.contains_key(id) implies entry_ok(
            k,
            f1,
            id,
            self.cache@[id]@,
        ) by {
            assert(f1.term(id as int) == f0.term(id as int));
        }
    }

    fn memoise_alloc(&mut self, id: usize, v: Vec<bool>, Ghost(k): Ghost<Kripke>, Ghost(f): Ghost<&CTLFactory>) -> (r: &'a Vec<bool>)
        requires
            old(self).ok(k, f),
            entry_ok(k, f, id, v@),
        ensures
            final(self).ok(k, f),
            final(self).grows(old(self)),
            *r == v,
            final(self).fresh@.contains(id),
            final(self).memo@.contains_key(id),
    {
        let r = arena_alloc(self.arena, v);
        self.memoise_ref(id, r, Ghost(k), Ghost(f))
    }

    fn memoise_ref(&mut self, id: usize, r: &'a Vec<bool>, Ghost(k): Ghost<Kripke>, Ghost(f): Ghost<&CTLFactory>) -> (r2: &'a Vec<bool>)
        requires
            old(self).ok(k, f),
            entry_ok(k, f, id, r@),
        ensures
            final(self).ok(k, f),
            final(self).grows(old(self)),
            r2 == r,
            final(self).fresh@.contains(id),
            final(self).memo@.contains_key(id),
    {
        broadcast use vstd::std_specs::hash::group_hash_axioms;

        proof {
            if self.memo@.contains_key(id) {
                lemma_set_of_injective(self.memo@[id]@, r@);
            }
        }
        self.memo.insert(id, r);
        self.fresh.push(id);
        assert(self.fresh@[self.fresh@.len() - 1] == id);
        assert forall|i: usize| #[trigger] self.memo@.contains_key(i) implies self.fresh@.contains(i)
            || self.cache@.contains_key(i) by {
            if i != id && old(self).fresh@.contains(i) {
                let x = choose|x: int| 0 <= x < old(self).fresh@.len() && old(self).fresh@[x] == i;
                assert(self.fresh@[x] == i);
            }
        }
        r
    }

    /// The states at which entry `id` of the factory holds.
    fn solve(&mut self, f: &mut CTLFactory, model: &Model, id: usize) -> (r: &'a Vec<bool>)
        requires
            old(self).ok(model@, old(f)),
            old(f).wf(),
            model.inv(),
            id < old(f).len(),
        ensures
            final(self).ok(model@, final(f)),
            final(self).grows(old(self)),
            final(f).wf(),
            final(f).extends(old(f)),
            final(f).keeps_terms(old(f)),
            r.len() == model@.n(),
            set_of(r@) == sat(model@, old(f).term(id as int)),
            final(self).fresh@.contains(id) || final(self).cache@.contains_key(id),
            final(self).memo@.contains_key(id),
        decreases weight(old(f).term(id as int)), 1nat,
    {
        broadcast use vstd::std_specs::hash::group_hash_axioms;

        let ghost k = model@;
        match self.memo.get(&id) {
            Some(r) => {
                return *r;
            },
            None => {},
        }
        let cache: &'a HashMap<usize, Vec<bool>> = self.cache;
        match cache.get(&id) {
            Some(r) => {
                self.memo.insert(id, r);
                return r;
            },
            None => {},
        }
        proof {
            f.lemma_wf();
            crate::formulas::lemma_term_unfold(f.table(), id as int);
        }
        let node = copy_node(f.get_node(id));
        match node {
            CtlNode::Top => {
                let v = model.all_idx();
                self.memoise_alloc(id, v, Ghost(k), Ghost(&*f))
            },
            CtlNode::Bot => {
                let v = empty_set(model.num_states());
                self.memoise_alloc(id, v, Ghost(k), Ghost(&*f))
            },
            CtlNode::Atomic(p) => {
                let v = model.all_containing_idx(&p);
                self.memoise_alloc(id, v, Ghost(k), Ghost(&*f))
            },
            CtlNode::Unary(op, c) => self.solve_unary(f, model, id, op, c),
            CtlNode::Binary(op, a, b) => self.solve_binary(f, model, id, op, a, b),
        }
    }

    fn solve_unary(
        &mut self,
        f: &mut CTLFactory,
        model: &Model,
        id: usize,
        op: CtlUnOp,
        c: usize,
    ) -> (r: &'a Vec<bool>)
        requires
            old(self).ok(model@, old(f)),
            old(f).wf(),
            model.inv(),
            id < old(f).len(),
            c < old(f).len(),
            old(f).term(id as int) == un(op, old(f).term(c as int)),
        ensures
            final(self).ok(model@, final(f)),
            final(self).grows(old(self)),
            final(f).wf(),
            final(f).extends(old(f)),
            final(f).keeps_terms(old(f)),
            r.len() == model@.n(),
            set_of(r@) == sat(model@, old(f).term(id as int)),
            final(self).fresh@.contains(id) || final(self).cache@.contains_key(id),
            final(self).memo@.contains_key(id),
        decreases weight(un(op, old(f).term(c as int))), 0nat,
    {
        let ghost k = model@;
        let ghost f0 = *f;
        let ghost tc = f0.term(c as int);
        match op {
            CtlUnOp::Neg => {
                let s = self.solve(f, model, c);
                let v = model.all_except_idx(s);
                self.memoise_alloc(id, v, Ghost(k), Ghost(&*f))
            },
            CtlUnOp::EX => {
                let s = self.solve(f, model, c);
                let v = model.pre_e_idx(s);
                self.memoise_alloc(id, v, Ghost(k), Ghost(&*f))
            },
            CtlUnOp::AF => {
                let s = self.solve(f, model, c);
                let v = sat_af(model, s);
                self.memoise_alloc(id, v, Ghost(k), Ghost(&*f))
            },
            CtlUnOp::EF => {
                let t = f.make(CtlNode::Top);
                let e = mk_bin(f, CtlBinOp::EU, t, c);
                proof {
                    self.lemma_ok_extends(k, &f0, &*f);
                    reveal_with_fuel(sat, 2);
                    reveal_with_fuel(weight, 2);
                }
                let r = self.solve(f, model, e);
                self.memoise_ref(id, r, Ghost(k), Ghost(&*f))
            },
            CtlUnOp::AX => {
                let n1 = mk_un(f, CtlUnOp::Neg, c);
                let n2 = mk_un(f, CtlUnOp::EX, n1);
                let n3 = mk_un(f, CtlUnOp::Neg, n2);
                proof {
                    self.lemma_ok_extends(k, &f0, &*f);
                    reveal_with_fuel(sat, 3);
                    reveal_with_fuel(weight, 3);
                }
                let r = self.solve(f, model, n3);
                self.memoise_ref(id, r, Ghost(k), Ghost(&*f))
            },
            CtlUnOp::EG => {
                let n1 = mk_un(f, CtlUnOp::Neg, c);
                let n2 = mk_un(f, CtlUnOp::AF, n1);
                let n3 = mk_un(f, CtlUnOp::Neg, n2);
                proof {
                    self.lemma_ok_extends(k, &f0, &*f);
                    reveal_with_fuel(sat, 3);
                    reveal_with_fuel(weight, 3);
                }
                let r = self.solve(f, model, n3);
                self.memoise_ref(id, r, Ghost(k), Ghost(&*f))
            },
            CtlUnOp::AG => {
                let n1 = mk_un(f, CtlUnOp::Neg, c);
                let n2 = mk_un(f, CtlUnOp::EF, n1);
                let n3 = mk_un(f, CtlUnOp::Neg, n2);
                proof {
                    self.lemma_ok_extends(k, &f0, &*f);
                    reveal_with_fuel(sat, 3);
                    reveal_with_fuel(weight, 3);
                }
                let r = self.solve(f, model, n3);
                self.memoise_ref(id, r, Ghost(k), Ghost(&*f))
            },
        }
    }

    fn solve_binary(
        &mut self,
        f: &mut CTLFactory,
        model: &Model,
        id: usize,
        op: CtlBinOp,
        a: usize,
        b: usize,
    ) -> (r: &'a Vec<bool>)
        requires
            old(self).ok(model@, old(f)),
            old(f).wf(),
            model.inv(),
            id < old(f).len(),
            a < old(f).len(),
            b < old(f).len(),
            old(f).term(id as int) == bin(op, old(f).term(a as int), old(f).term(b as int)),
        ensures
            final(self).ok(model@, final(f)),
            final(self).grows(old(self)),
            final(f).wf(),
            final(f).extends(old(f)),
            final(f).keeps_terms(old(f)),
            r.len() == model@.n(),
            set_of(r@) == sat(model@, old(f).term(id as int)),
            final(self).fresh@.contains(id) || final(self).cache@.contains_key(id),
            final(self).memo@.contains_key(id),
        decreases weight(bin(op, old(f).term(a as int), old(f).term(b as int))), 0nat,
    {
        let ghost k = model@;
        let ghost f0 = *f;
        match op {
            CtlBinOp::And => {
                let sa = self.solve(f, model, a);
                let sb = self.solve(f, model, b);
                let v = intersection(sa, sb);
                self.memoise_alloc(id, v, Ghost(k), Ghost(&*f))
            },
            CtlBinOp::Or => {
                let sa = self.solve(f, model, a);
                let sb = self.solve(f, model, b);
                let v = union(sa, sb);
                self.memoise_alloc(id, v, Ghost(k), Ghost(&*f))
            },
            CtlBinOp::EU => {
                let sa = self.solve(f, model, a);
                let sb = self.solve(f, model, b);
                let v = sat_eu(model, sa, sb);
                self.memoise_alloc(id, v, Ghost(k), Ghost(&*f))
            },
            CtlBinOp::ImpliesR => {
                let n1 = mk_un(f, CtlUnOp::Neg, a);
                let n2 = mk_bin(f, CtlBinOp::Or, n1, b);
                proof {
                    self.lemma_ok_extends(k, &f0, &*f);
                    reveal_with_fuel(sat, 3);
                    reveal_with_fuel(weight, 3);
                }
                let r = self.solve(f, model, n2);
                self.memoise_ref(id, r, Ghost(k), Ghost(&*f))
            },
            CtlBinOp::ImpliesL => {
                let n1 = mk_un(f, CtlUnOp::Neg, b);
                let n2 = mk_bin(f, CtlBinOp::Or, a, n1);
                proof {
                    self.lemma_ok_extends(k, &f0, &*f);
                    reveal_with_fuel(sat, 3);
                    reveal_with_fuel(weight, 3);
                }
                let r = self.solve(f, model, n2);
                self.memoise_ref(id, r, Ghost(k), Ghost(&*f))
            },
            CtlBinOp::BiImplies => {
                let n1 = mk_bin(f, CtlBinOp::ImpliesR, a, b);
                let n2 = mk_bin(f, CtlBinOp::ImpliesR, b, a);
                let n3 = mk_bin(f, CtlBinOp::And, n1, n2);
                proof {
                    self.lemma_ok_extends(k, &f0, &*f);
                    reveal_with_fuel(sat, 3);
                    reveal_with_fuel(weight, 3);
                }
                let r = self.solve(f, model, n3);
                self.memoise_ref(id, r, Ghost(k), Ghost(&*f))
            },
            CtlBinOp::AU => {
                let nb = mk_un(f, CtlUnOp::Neg, b);
                let na = mk_un(f, CtlUnOp::Neg, a);
                let both = mk_bin(f, CtlBinOp::And, na, nb);
                let until = mk_bin(f, CtlBinOp::EU, nb, both);
                let left = mk_un(f, CtlUnOp::Neg, until);
                let right = mk_un(f, CtlUnOp::EG, nb);
                let whole = mk_bin(f, CtlBinOp::Or, left, right);
                proof {
                    self.lemma_ok_extends(k, &f0, &*f);
                    lemma_au_rewrite(k, f0.term(a as int), f0.term(b as int));
                }
                let r = self.solve(f, model, whole);
                self.memoise_ref(id, r, Ghost(k), Ghost(&*f))
            },
        }
    }
}

/// A CTL model checker bound to one model. Sets computed by earlier queries
/// are kept, by factory entry, and reused.
#[derive(Debug, Clone)]
pub struct CTLSolver {
    model: Model,
    formulas: CTLFactory,
    cache: HashMap<usize, Vec<bool>>,
}

impl CTLSolver {
    /// The factory of the formulas that queries have interned.
    pub closed spec fn factory(&self) -> CTLFactory {
        self.formulas
    }

    /// The model queried.
    pub closed spec fn model(&self) -> Kripke {
        self.model@
    }

    /// The persistent cache: for each factory entry, the states at which it
    /// holds.
    pub closed spec fn cached(&self) -> Map<usize, Seq<bool>> {
        self.cache@.map_values(|v: Vec<bool>| v@)
    }

    /// The formulas that the persistent cache holds an answer for.
    pub closed spec fn cached_formulas(&self) -> Set<CtlTree> {
        Set::new(|t: CtlTree| exists|id: usize| #[trigger] self.cache@.contains_key(id) && self.formulas.term(id as int) == t)
    }

    pub closed spec fn inv(&self) -> bool {
        &&& self.model.inv()
        &&& self.formulas.wf()
        &&& forall|id: usize| #[trigger]
            self.cache@.contains_key(id) ==> entry_ok(self.model@, &self.formulas, id, self.cache@[id]@)
    }

    /// Every answer in the cache is the set of states where its formula holds.
    pub proof fn lemma_cache_sound(&self, t: CtlTree)
        requires
            self.inv(),
            self.cached_formulas().contains(t),
        ensures
            exists|id: usize| #[trigger] self.cached().contains_key(id) && set_of(self.cached()[id]) == sat(self.model(), t),
    {
        let id = choose|id: usize| #[trigger] self.cache@.contains_key(id) && self.formulas.term(id as int) == t;
        assert(self.cached().contains_key(id));
    }

    pub fn new(model: Model) -> (r: Self)
        requires
            model.inv(),
        ensures
            r.inv(),
            r.model() == model@,
            r.cached() == Map::<usize, Seq<bool>>::empty(),
            r.factory().len() == 0,
    {
        broadcast use vstd::std_specs::hash::group_hash_axioms;

        let r = CTLSolver { model, formulas: CTLFactory::new(), cache: HashMap::new() };
        assert(r.cached() =~= Map::<usize, Seq<bool>>::empty());
        r
    }

    /// The names of the states at which `formula` holds, in index order.
    /// The cache keeps every answer it held and gains the ones computed here.
    pub fn satisfies(&mut self, formula: Rc<CTLFormula>) -> (r: Vec<String>)
        requires
            old(self).inv(),
        ensures
            final(self).inv(),
            final(self).model() == old(self).model(),
            r@.map_values(|x: String| x@) == old(self).model().names_of(
                sat(old(self).model(), formula@),
            ),
            old(self).cached().submap_of(final(self).cached()),
            old(self).cached_formulas().subset_of(final(self).cached_formulas()),
            final(self).cached_formulas().contains(formula@),
            final(self).factory().extends(&old(self).factory()),
            final(self).factory().holds(formula@),
    {
        broadcast use vstd::std_specs::hash::group_hash_axioms;

        let ghost k = self.model@;
        let ghost f0 = self.formulas;
        let ghost cache0 = self.cache@;
        let id = self.formulas.intern(&formula);
        let arena: Arena<Vec<bool>> = Arena::new();
        let mut run = SolverRun {
            memo: HashMap::new(),
            arena: &arena,
            cache: &self.cache,
            fresh: Vec::new(),
        };
        proof {
            run.lemma_ok_extends(k, &f0, &self.formulas);
        }
        let ghost f1 = self.formulas;
        let r = run.solve(&mut self.formulas, &self.model, id);
        let names = self.model.get_names(r);
        let ghost f2 = self.formulas;
        let mut updates: Vec<(usize, Vec<bool>)> = Vec::new();
        let mut i: usize = 0;
        while i < run.fresh.len()
            invariant
                run.ok(k, &f2),
                i <= run.fresh.len(),
                forall|x: int|
                    0 <= x < updates.len() ==> entry_ok(k, &f2, (#[trigger] updates@[x]).0, updates@[x].1@),
                forall|x: int|
                    0 <= x < i ==> exists|y: int| 0 <= y < updates.len() && (#[trigger] updates@[y]).0 == #[trigger] run.fresh@[x],
            decreases run.fresh.len() - i,
        {
            let fid = run.fresh[i];
            assert(run.memo@.contains_key(fid));
            let ghost before = updates@;
            match run.memo.get(&fid) {
                Some(v) => {
                    let copy = copy_set(*v);
                    updates.push((fid, copy));
                },
                None => {},
            }
            assert(updates@[updates.len() - 1].0 == run.fresh@[i as int]);
            assert forall|x: int| 0 <= x < i + 1 implies exists|y: int|
                0 <= y < updates.len() && (#[trigger] updates@[y]).0 == #[trigger] run.fresh@[x] by {
                if x < i {
                    let y = choose|y: int| 0 <= y < before.len() && (#[trigger] before[y]).0 == run.fresh@[x];
                    assert(updates@[y] == before[y]);
                } else {
                    assert(updates@[updates.len() - 1].0 == run.fresh@[x]);
                }
            }
            i += 1;
        }
        let ghost in_updates = exists|y: int| 0 <= y < updates.len() && (#[trigger] updates@[y]).0 == id;
        assert(in_updates || cache0.contains_key(id));
        let mut j: usize = 0;
        while j < updates.len()
            invariant
                self.model@ == k,
                self.model.inv(),
                self.formulas == f2,
                f2.wf(),
                f2.extends(&f0),
                f2.keeps_terms(&f0),
                j <= updates.len(),
                forall|x: int|
                    0 <= x < updates.len() ==> entry_ok(k, &f2, (#[trigger] updates@[x]).0, updates@[x].1@),
                forall|fid: usize| #[trigger]
                    self.cache@.contains_key(fid) ==> entry_ok(k, &f2, fid, self.cache@[fid]@),
                forall|fid: usize| #[trigger]
                    cache0.contains_key(fid) ==> self.cache@.contains_key(fid) && self.cache@[fid] == cache0[fid],
                forall|y: int| 0 <= y < j ==> self.cache@.contains_key((#[trigger] updates@[y]).0),
            decreases updates.len() - j,
        {
            let fid = updates[j].0;
            if !self.cache.contains_key(&fid) {
                let copy = copy_set(&updates[j].1);
                self.cache.insert(fid, copy);
            }
            j += 1;
        }
        proof {
            assert(f2.term(id as int) == f1.term(id as int));
            assert(self.factory().holds(formula@));
            assert(self.cache@.contains_key(id));
            assert(self.cached_formulas().contains(formula@));
            assert(old(self).cached().submap_of(self.cached()));
            assert forall|t: CtlTree| old(self).cached_formulas().contains(t) implies self.cached_formulas().contains(t) by {
                let x = choose|x: usize| #[trigger] cache0.contains_key(x) && f0.term(x as int) == t;
                assert(self.cache@.contains_key(x));
            }
        }
        names
    }
}

/// `satisfies` names the same states for `Neg Neg f` as for `f`.
pub proof fn lemma_solver_double_negation(s: &CTLSolver, f: CtlTree)
    ensures
        s.model().names_of(sat(s.model(), un(CtlUnOp::Neg, un(CtlUnOp::Neg, f)))) == s.model().names_of(
            sat(s.model(), f),
        ),
{
    lemma_double_negation(s.model(), f);
}

/// `satisfies` names the same states for `And(f, f)` as for `f`.
pub proof fn lemma_solver_and_idempotent(s: &CTLSolver, f: CtlTree)
    ensures
        s.model().names_of(sat(s.model(), bin(CtlBinOp::And, f, f))) == s.model().names_of(
            sat(s.model(), f),
        ),
{
    lemma_and_idempotent(s.model(), f);
}

/// `satisfies` names every state for `Or(f, Neg f)`.
pub proof fn lemma_solver_excluded_middle(s: &CTLSolver, f: CtlTree)
    ensures
        s.model().names_of(sat(s.model(), bin(CtlBinOp::Or, f, un(CtlUnOp::Neg, f)))) == s.model().names_of(
            s.model().all(),
        ),
{
    lemma_excluded_middle(s.model(), f);
}

/// `satisfies` names the same states for `EF f` as for `EU(Top, f)`.
pub proof fn lemma_solver_ef_is_eu(s: &CTLSolver, f: CtlTree)
    ensures
        s.model().names_of(sat(s.model(), un(CtlUnOp::EF, f))) == s.model().names_of(
            sat(s.model(), bin(CtlBinOp::EU, CtlTree::Top, f)),
        ),
{
    lemma_ef_is_eu(s.model(), f);
}

/// `satisfies` names, for `AG f`, the states that it does not name for
/// `EF(Neg f)`.
pub proof fn lemma_solver_ag_is_not_ef_not(s: &CTLSolver, f: CtlTree)
    ensures
        s.model().names_of(sat(s.model(), un(CtlUnOp::AG, f))) == s.model().names_of(
            s.model().complement(sat(s.model(), un(CtlUnOp::EF, un(CtlUnOp::Neg, f)))),
        ),
{
    lemma_ag_is_not_ef_not(s.model(), f);
}

/// On the solver's model, the fixed points for `EU(a, b)` and `AF b` are
/// reached within as many rounds as the model has states.
pub proof fn lemma_solver_fixed_points(s: &CTLSolver, a: CtlTree, b: CtlTree)
    ensures
        exists|i: nat|
            i <= s.model().n() && #[trigger] iterate(eu_step(s.model(), sat(s.model(), a)), sat(s.model(), b), i + 1)
                == iterate(eu_step(s.model(), sat(s.model(), a)), sat(s.model(), b), i),
        exists|i: nat|
            i <= s.model().n() && #[trigger] iterate(af_step(s.model()), sat(s.model(), b), i + 1)
                == iterate(af_step(s.model()), sat(s.model(), b), i),
{
    lemma_sat_within(s.model(), b);
    lemma_eu_halts(s.model(), sat(s.model(), a), sat(s.model(), b));
    lemma_af_halts(s.model(), sat(s.model(), b));
}

} // verus!
