use minictl::models::{Model, ModelCreationError, State};

fn state(name: &str, labels: &[&str]) -> State {
    State::new(
        name.to_string(),
        labels.iter().map(|l| l.to_string()).collect(),
    )
}

fn edge(from: &str, to: &[&str]) -> (String, Vec<String>) {
    (from.to_string(), to.iter().map(|t| t.to_string()).collect())
}

fn three_states() -> Model {
    match Model::new(
        vec![state("a", &["p"]), state("b", &["p", "q"]), state("c", &[])],
        vec![edge("a", &["b", "c"]), edge("b", &["b"])],
    ) {
        Ok(m) => m,
        Err(_) => panic!("the model is valid"),
    }
}

#[test]
fn duplicate_state_name_is_rejected() {
    let r = Model::new(vec![state("a", &[]), state("a", &["p"])], vec![]);
    match r {
        Err(ModelCreationError::DuplicateStateName(n)) => assert_eq!(n, "a"),
        _ => panic!("expected a duplicate name"),
    }
}

#[test]
fn unknown_state_name_is_rejected() {
    let r = Model::new(vec![state("a", &[])], vec![edge("a", &["z"])]);
    match r {
        Err(ModelCreationError::UnknownStateName(n)) => assert_eq!(n, "z"),
        _ => panic!("expected an unknown name"),
    }
    let r = Model::new(vec![state("a", &[])], vec![edge("y", &["a"])]);
    match r {
        Err(ModelCreationError::UnknownStateName(n)) => assert_eq!(n, "y"),
        _ => panic!("expected an unknown name"),
    }
}

#[test]
fn empty_model() {
    let m = match Model::new(vec![], vec![]) {
        Ok(m) => m,
        Err(_) => panic!("an empty model is valid"),
    };
    assert_eq!(m.num_states(), 0);
    assert!(m.all_idx().is_empty());
}

#[test]
fn set_queries() {
    let m = three_states();
    assert_eq!(m.num_states(), 3);
    assert_eq!(m.all_idx(), vec![true, true, true]);
    assert_eq!(m.all_containing_idx(&"p".to_string()), vec![true, true, false]);
    assert_eq!(m.all_containing_idx(&"q".to_string()), vec![false, true, false]);
    assert_eq!(m.all_except_idx(&vec![true, false, false]), vec![false, true, true]);
    assert_eq!(m.pre_e_idx(&vec![false, false, true]), vec![true, false, false]);
    assert_eq!(m.pre_e_idx(&vec![false, true, false]), vec![true, true, false]);
    // `c` has no successors, so it is a universal predecessor of every set.
    assert_eq!(m.pre_a_idx(&vec![false, true, false]), vec![false, true, true]);
    assert_eq!(m.pre_a_idx(&vec![false, true, true]), vec![true, true, true]);
    assert_eq!(
        m.get_names(&vec![true, false, true]),
        vec!["a".to_string(), "c".to_string()]
    );
    assert_eq!(m.get_idx(&"b".to_string()), Some(1));
    assert_eq!(m.get_idx(&"zz".to_string()), None);
    assert!(m.get_state(1).contains(&"q".to_string()));
    assert!(!m.get_state(2).contains(&"q".to_string()));
}

#[test]
fn predecessors_transpose_successors() {
    let m = three_states();
    for i in 0..m.num_states() {
        for j in 0..m.num_states() {
            let forward = m.successors(i).contains(&j);
            let backward = m.predecessors(j).contains(&i);
            assert_eq!(forward, backward);
        }
    }
    assert!(m.successors(0).contains(&2));
    assert!(m.predecessors(1).contains(&1));
    assert!(m.successors(2).is_empty());
}

#[test]
fn name_set_queries() {
    let m = three_states();
    assert_eq!(m.all(), vec!["a".to_string(), "b".to_string(), "c".to_string()]);
    assert_eq!(m.all_containing(&"p".to_string()), vec!["a".to_string(), "b".to_string()]);
    assert_eq!(
        m.all_except(&vec!["b".to_string()]),
        Some(vec!["a".to_string(), "c".to_string()])
    );
    assert_eq!(m.all_except(&vec!["b".to_string(), "nope".to_string()]), None);
    assert_eq!(m.all_except(&vec![]), Some(m.all()));
}
