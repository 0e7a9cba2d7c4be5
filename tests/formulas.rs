use std::rc::Rc;

use minictl::formulas::{
    memoize_ctl, memoize_ltl, CTLFactory, CTLFormula, CTLVariable, CtlBinOp, CtlNode,
    LTLFactory, LTLFormula, LTLVariable,
};

fn atom(name: &str) -> Rc<CTLFormula> {
    Rc::new(CTLFormula::Atomic(CTLVariable::new(name.to_string())))
}

fn latom(name: &str) -> Rc<LTLFormula> {
    Rc::new(LTLFormula::Atomic(LTLVariable::new(name.to_string())))
}

#[test]
fn interning_and_p_p_twice_shares_everything() {
    let mut f = CTLFactory::new();
    let first = f.intern(&CTLFormula::And(atom("p"), atom("p")));
    let second = f.intern(&CTLFormula::And(atom("p"), atom("p")));
    assert_eq!(first, second);
    match f.get_node(first) {
        CtlNode::Binary(op, a, b) => {
            assert_eq!(*op, CtlBinOp::And);
            assert_eq!(a, b);
        }
        _ => panic!("expected a binary node"),
    }
    assert_eq!(f.actual_size(), 2);
}

#[test]
fn equal_formulas_get_the_same_index() {
    let mut f = CTLFactory::new();
    let left = CTLFormula::EU(atom("p"), Rc::new(CTLFormula::Neg(atom("q"))));
    let right = CTLFormula::EU(atom("p"), Rc::new(CTLFormula::Neg(atom("q"))));
    let a = f.intern(&left);
    let size = f.actual_size();
    let b = f.intern(&right);
    assert_eq!(a, b);
    assert_eq!(f.actual_size(), size);
    let c = f.intern(&CTLFormula::EU(atom("q"), atom("p")));
    assert_ne!(a, c);
}

#[test]
fn create_returns_an_equal_formula() {
    let mut f = CTLFactory::new();
    let formula = Rc::new(CTLFormula::AG(Rc::new(CTLFormula::Or(atom("p"), atom("q")))));
    let handle = f.create(formula.clone());
    assert_eq!(*handle, *formula);
    assert_eq!(f.actual_size(), 4);
    let again = f.create(formula.clone());
    assert!(Rc::ptr_eq(&handle, &again));
}

#[test]
fn shared_sub_formulas_share_one_allocation() {
    let mut f = CTLFactory::new();
    let handle = f.create(Rc::new(CTLFormula::And(atom("p"), atom("p"))));
    match &*handle {
        CTLFormula::And(a, b) => assert!(Rc::ptr_eq(a, b)),
        _ => panic!("expected a conjunction"),
    }
}

#[test]
fn memoize_keeps_the_formula() {
    let formula = CTLFormula::EX(Rc::new(CTLFormula::Bot));
    assert_eq!(*memoize_ctl(&formula), formula);
}

#[test]
fn total_size_counts_every_occurrence() {
    let p = atom("p");
    let formula = CTLFormula::And(p.clone(), Rc::new(CTLFormula::Neg(p)));
    assert_eq!(formula.total_size(), 4);
    assert_eq!(CTLFormula::Top.total_size(), 1);
}

#[test]
fn ltl_factory_shares_equal_formulas() {
    let mut f = LTLFactory::new();
    let formula = LTLFormula::U(latom("a"), Rc::new(LTLFormula::X(latom("a"))));
    let first = f.intern(&formula);
    let second = f.intern(&formula.clone());
    assert_eq!(first, second);
    assert_eq!(f.actual_size(), 3);
    let handle = f.create(formula.clone());
    assert_eq!(*handle, formula);
    assert_eq!(formula.total_size(), 4);
    assert_eq!(*memoize_ltl(&formula), formula);
}

#[test]
fn factory_seeded_with_formulas() {
    let seed = vec![
        Rc::new(CTLFormula::And(atom("p"), atom("p"))),
        Rc::new(CTLFormula::Neg(atom("p"))),
    ];
    let mut f = CTLFactory::from_formulas(&seed);
    assert_eq!(f.actual_size(), 3);
    let before = f.actual_size();
    let id = f.intern(&CTLFormula::Neg(atom("p")));
    assert_eq!(f.actual_size(), before);
    assert!(id < before);
}

#[test]
fn interning_adds_only_missing_sub_formulas() {
    let mut f = CTLFactory::new();
    f.intern(&CTLFormula::And(atom("p"), atom("p")));
    assert_eq!(f.actual_size(), 2);
    f.intern(&CTLFormula::Or(atom("p"), atom("q")));
    assert_eq!(f.actual_size(), 4);
    let mut l = LTLFactory::from_formulas(&vec![latom("a"), Rc::new(LTLFormula::G(latom("a")))]);
    assert_eq!(l.actual_size(), 2);
    let h = l.create(LTLFormula::G(latom("a")));
    assert_eq!(l.actual_size(), 2);
    assert_eq!(*h, LTLFormula::G(latom("a")));
}
