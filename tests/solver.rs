use std::rc::Rc;

use minictl::formulas::{CTLFormula, CTLVariable};
use minictl::models::{Model, State};
use minictl::satisfies::CTLSolver;

fn atom(name: &str) -> Rc<CTLFormula> {
    Rc::new(CTLFormula::Atomic(CTLVariable::new(name.to_string())))
}

fn state(name: &str, labels: &[&str]) -> State {
    State::new(
        name.to_string(),
        labels.iter().map(|l| l.to_string()).collect(),
    )
}

fn edges(list: &[(&str, &[&str])]) -> Vec<(String, Vec<String>)> {
    list.iter()
        .map(|(from, to)| {
            (
                from.to_string(),
                to.iter().map(|t| t.to_string()).collect(),
            )
        })
        .collect()
}

fn solver(states: Vec<State>, e: Vec<(String, Vec<String>)>) -> CTLSolver {
    match Model::new(states, e) {
        Ok(m) => CTLSolver::new(m),
        Err(_) => panic!("the model is valid"),
    }
}

fn two_state_loop() -> CTLSolver {
    solver(
        vec![state("s0", &["p"]), state("s1", &["q"])],
        edges(&[("s0", &["s1"]), ("s1", &["s0"])]),
    )
}

fn deadlock() -> CTLSolver {
    solver(
        vec![state("a", &["x"]), state("b", &[])],
        edges(&[("a", &["b"])]),
    )
}

fn names(v: &[&str]) -> Vec<String> {
    v.iter().map(|s| s.to_string()).collect()
}

#[test]
fn two_state_loop_ag_p_or_q() {
    let mut s = two_state_loop();
    let f = Rc::new(CTLFormula::AG(Rc::new(CTLFormula::Or(atom("p"), atom("q")))));
    assert_eq!(s.satisfies(f), names(&["s0", "s1"]));
}

#[test]
fn two_state_loop_ef_p() {
    let mut s = two_state_loop();
    assert_eq!(s.satisfies(Rc::new(CTLFormula::EF(atom("p")))), names(&["s0", "s1"]));
}

#[test]
fn two_state_loop_eg_p() {
    let mut s = two_state_loop();
    assert_eq!(s.satisfies(Rc::new(CTLFormula::EG(atom("p")))), names(&[]));
}

#[test]
fn deadlock_ex_top() {
    let mut s = deadlock();
    let f = Rc::new(CTLFormula::EX(Rc::new(CTLFormula::Top)));
    assert_eq!(s.satisfies(f), names(&["a"]));
}

#[test]
fn deadlock_ax_bot() {
    let mut s = deadlock();
    let f = Rc::new(CTLFormula::AX(Rc::new(CTLFormula::Bot)));
    assert_eq!(s.satisfies(f), names(&["b"]));
}

// A state without successors satisfies every universal next-step claim, so
// the deadlocked state `b` is in `AF x` as it is in `AX Bot`.
#[test]
fn deadlock_af_x() {
    let mut s = deadlock();
    let f = Rc::new(CTLFormula::AF(atom("x")));
    assert_eq!(s.satisfies(f), names(&["a", "b"]));
}

#[test]
fn until_on_a_chain() {
    let mut s = solver(
        vec![
            state("s0", &["p"]),
            state("s1", &["p"]),
            state("s2", &["q"]),
            state("s3", &[]),
        ],
        edges(&[("s0", &["s1"]), ("s1", &["s2"]), ("s2", &["s3"])]),
    );
    let f = Rc::new(CTLFormula::EU(atom("p"), atom("q")));
    assert_eq!(s.satisfies(f), names(&["s0", "s1", "s2"]));
}

#[test]
fn double_negation_on_concrete_model() {
    let mut s = deadlock();
    let nn = Rc::new(CTLFormula::Neg(Rc::new(CTLFormula::Neg(atom("x")))));
    assert_eq!(s.satisfies(nn), s.satisfies(atom("x")));
}

#[test]
fn and_with_itself_on_concrete_model() {
    let mut s = two_state_loop();
    let f = Rc::new(CTLFormula::And(atom("p"), atom("p")));
    assert_eq!(s.satisfies(f), names(&["s0"]));
}

#[test]
fn excluded_middle_on_concrete_model() {
    let mut s = deadlock();
    let f = Rc::new(CTLFormula::Or(atom("x"), Rc::new(CTLFormula::Neg(atom("x")))));
    assert_eq!(s.satisfies(f), names(&["a", "b"]));
}

#[test]
fn ef_equals_eu_top_on_concrete_model() {
    let mut s = solver(
        vec![state("a", &[]), state("b", &[]), state("c", &["goal"])],
        edges(&[("a", &["b"]), ("b", &["c"])]),
    );
    let ef = s.satisfies(Rc::new(CTLFormula::EF(atom("goal"))));
    let eu = s.satisfies(Rc::new(CTLFormula::EU(Rc::new(CTLFormula::Top), atom("goal"))));
    assert_eq!(ef, eu);
    assert_eq!(ef, names(&["a", "b", "c"]));
}

#[test]
fn ag_is_complement_of_ef_not_on_concrete_model() {
    let mut s = solver(
        vec![state("a", &["p"]), state("b", &["p"]), state("c", &[])],
        edges(&[("a", &["a"]), ("b", &["c"]), ("c", &["c"])]),
    );
    let ag = s.satisfies(Rc::new(CTLFormula::AG(atom("p"))));
    assert_eq!(ag, names(&["a"]));
    let ef_not = s.satisfies(Rc::new(CTLFormula::EF(Rc::new(CTLFormula::Neg(atom("p"))))));
    assert_eq!(ef_not, names(&["b", "c"]));
}

#[test]
fn repeated_queries_give_the_same_answers() {
    let mut s = two_state_loop();
    let f = Rc::new(CTLFormula::EG(atom("q")));
    let first = s.satisfies(f.clone());
    let second = s.satisfies(f);
    assert_eq!(first, second);
    let g = Rc::new(CTLFormula::AF(atom("q")));
    assert_eq!(s.satisfies(g), names(&["s0", "s1"]));
}

#[test]
fn fixed_points_on_a_long_chain() {
    let n = 30;
    let mut states = Vec::new();
    let mut e = Vec::new();
    for i in 0..n {
        let labels: &[&str] = if i == n - 1 { &["end"] } else { &["walk"] };
        states.push(state(&format!("s{i}"), labels));
        if i + 1 < n {
            e.push((format!("s{i}"), vec![format!("s{}", i + 1)]));
        }
    }
    let mut s = solver(states, e);
    let all: Vec<String> = (0..n).map(|i| format!("s{i}")).collect();
    assert_eq!(s.satisfies(Rc::new(CTLFormula::EU(atom("walk"), atom("end")))), all);
    assert_eq!(s.satisfies(Rc::new(CTLFormula::AF(atom("end")))), all);
}

#[test]
fn derived_operators() {
    let mut s = solver(
        vec![state("a", &["p"]), state("b", &["q"]), state("c", &["p", "q"])],
        edges(&[("a", &["b", "c"]), ("b", &["b"]), ("c", &["a"])]),
    );
    let imp_r = Rc::new(CTLFormula::ImpliesR(atom("p"), atom("q")));
    assert_eq!(s.satisfies(imp_r), names(&["b", "c"]));
    let imp_l = Rc::new(CTLFormula::ImpliesL(atom("p"), atom("q")));
    assert_eq!(s.satisfies(imp_l), names(&["a", "c"]));
    let bi = Rc::new(CTLFormula::BiImplies(atom("p"), atom("q")));
    assert_eq!(s.satisfies(bi), names(&["c"]));
    let au = Rc::new(CTLFormula::AU(atom("p"), atom("q")));
    assert_eq!(s.satisfies(au), names(&["a", "b", "c"]));
    let ax = Rc::new(CTLFormula::AX(atom("q")));
    assert_eq!(s.satisfies(ax), names(&["a", "b"]));
}
