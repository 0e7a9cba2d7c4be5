use vstd::prelude::*;

verus! {

/// The set of state indices marked `true` in a membership vector.
pub open spec fn set_of(s: Seq<bool>) -> Set<int> {
    Set::new(|i: int| 0 <= i < s.len() && s[i])
}

/// The set of indices listed in an index vector.
pub open spec fn idx_set(v: Seq<usize>) -> Set<int> {
    Set::new(|j: int| exists|k: int| 0 <= k < v.len() && v[k] as int == j)
}

/// A state of a model: its name and the atomic propositions true in it.
#[derive(Debug, Clone)]
pub struct State {
    pub name: String,
    pub variables: Vec<String>,
}

impl State {
    pub fn new(name: String, variables: Vec<String>) -> (r: State)
        ensures
            r.name == name,
            r.variables == variables,
    {
        State { name, variables }
    }

    /// The propositions that label this state.
    pub open spec fn labels(&self) -> Set<Seq<char>> {
        Set::new(
            |p: Seq<char>|
                exists|k: int| 0 <= k < self.variables.len() && #[trigger] self.variables@[k]@ == p,
        )
    }

    pub fn contains(&self, var: &String) -> (r: bool)
        ensures
            r == self.labels().contains(var@),
    {
        let mut k: usize = 0;
        while k < self.variables.len()
            invariant
                k <= self.variables.len(),
                forall|m: int| 0 <= m < k ==> self.variables@[m]@ != var@,
            decreases self.variables.len() - k,
        {
            if self.variables[k].eq(var) {
                return true;
            }
            k += 1;
        }
        false
    }
}


/// Why a model could not be built.
#[derive(Debug, Clone, PartialEq, Eq)]
pub enum ModelCreationError {
    /// Two states carry this name.
    DuplicateStateName(String),
    /// The edge list names a state that does not exist.
    UnknownStateName(String),
}

/// The mathematical content of a model: names, labels and both adjacency
/// relations, indexed by state.
pub struct Kripke {
    pub names: Seq<Seq<char>>,
    pub labels: Seq<Set<Seq<char>>>,
    pub succ: Seq<Set<int>>,
    pub pred: Seq<Set<int>>,
}

impl Kripke {
    pub open spec fn n(self) -> int {
        self.names.len() as int
    }

    pub open spec fn valid(self, i: int) -> bool {
        0 <= i < self.n()
    }

    pub open spec fn wf(self) -> bool {
        &&& self.labels.len() == self.names.len()
        &&& self.succ.len() == self.names.len()
        &&& self.pred.len() == self.names.len()
        &&& forall|i: int, j: int| #[trigger]
            self.succ[i].contains(j) && self.valid(i) ==> self.valid(j)
        &&& forall|j: int, i: int| #[trigger]
            self.pred[j].contains(i) && self.valid(j) ==> self.valid(i)
        &&& forall|i: int, j: int|
            self.valid(i) && self.valid(j) ==> (#[trigger] self.succ[i].contains(j)
                <==> #[trigger] self.pred[j].contains(i))
        &&& forall|i: int, j: int|
            self.valid(i) && self.valid(j) && #[trigger] self.names[i] == #[trigger] self.names[j]
                ==> i == j
    }

    /// Every state.
    pub open spec fn all(self) -> Set<int> {
        Set::new(|i: int| self.valid(i))
    }

    /// The states labelled with `p`.
    pub open spec fn containing(self, p: Seq<char>) -> Set<int> {
        Set::new(|i: int| self.valid(i) && self.labels[i].contains(p))
    }

    /// The states outside `s`.
    pub open spec fn complement(self, s: Set<int>) -> Set<int> {
        self.all().difference(s)
    }

    /// Existential predecessors: the states with some successor in `s`.
    pub open spec fn pre_e(self, s: Set<int>) -> Set<int> {
        Set::new(|i: int| self.valid(i) && exists|j: int| self.succ[i].contains(j) && s.contains(j))
    }

    /// Universal predecessors: the states all of whose successors lie in `s`
    /// (a state without successors belongs to it).
    pub open spec fn pre_a(self, s: Set<int>) -> Set<int> {
        Set::new(
            |i: int| self.valid(i) && forall|j: int| #[trigger] self.succ[i].contains(j) ==> s.contains(j),
        )
    }

    /// The names of the states of `s` among the first `k`, in index order.
    pub open spec fn names_upto(self, s: Set<int>, k: int) -> Seq<Seq<char>>
        decreases k,
    {
        if k <= 0 {
            Seq::empty()
        } else if s.contains(k - 1) {
            self.names_upto(s, k - 1).push(self.names[k - 1])
        } else {
            self.names_upto(s, k - 1)
        }
    }

    /// The names of the states of `s`, in index order.
    pub open spec fn names_of(self, s: Set<int>) -> Seq<Seq<char>> {
        self.names_upto(s, self.n())
    }

    /// The states whose names are among `names`.
    pub open spec fn named(self, names: Seq<Seq<char>>) -> Set<int> {
        Set::new(|i: int| self.valid(i) && names.contains(self.names[i]))
    }

    /// Whether some state is named `name`.
    pub open spec fn has_name(self, name: Seq<char>) -> bool {
        exists|i: int| self.valid(i) && self.names[i] == name
    }
}

/// Whether the names of `states` are pairwise distinct.
pub open spec fn distinct_names(states: Seq<State>) -> bool {
    forall|a: int, b: int|
        0 <= a < states.len() && 0 <= b < states.len() && #[trigger] states[a].name@
            == #[trigger] states[b].name@ ==> a == b
}

/// Whether `name` is the name of one of `states`.
pub open spec fn names_state(states: Seq<State>, name: Seq<char>) -> bool {
    exists|i: int| 0 <= i < states.len() && #[trigger] states[i].name@ == name
}

/// Whether every name that the edge list mentions is the name of a state.
pub open spec fn edges_resolve(states: Seq<State>, edges: Seq<(String, Vec<String>)>) -> bool {
    forall|e: int|
        0 <= e < edges.len() ==> {
            &&& names_state(states, (#[trigger] edges[e]).0@)
            &&& forall|d: int| 0 <= d < edges[e].1.len() ==> names_state(states, #[trigger] edges[e].1@[d]@)
        }
}

/// Whether entry `d` of the successor list of entry `e` of the edge list is a
/// transition from the state named `a` to the state named `b`.
pub open spec fn edge_at(
    edges: Seq<(String, Vec<String>)>,
    e: int,
    d: int,
    a: Seq<char>,
    b: Seq<char>,
) -> bool {
    0 <= e < edges.len() && 0 <= d < edges[e].1.len() && edges[e].0@ == a && edges[e].1@[d]@ == b
}

/// Whether the edge list gives a transition from the state named `a` to the
/// state named `b`.
pub open spec fn lists_edge(edges: Seq<(String, Vec<String>)>, a: Seq<char>, b: Seq<char>) -> bool {
    exists|e: int, d: int| #[trigger] edge_at(edges, e, d, a, b)
}

/// Whether some name that the edge list mentions is `x`.
pub open spec fn mentions(edges: Seq<(String, Vec<String>)>, x: Seq<char>) -> bool {
    exists|e: int|
        0 <= e < edges.len() && ((#[trigger] edges[e]).0@ == x || exists|d: int|
            0 <= d < edges[e].1.len() && #[trigger] edges[e].1@[d]@ == x)
}

/// `lists_edge` restricted to the entries before position `(e, d)`.
spec fn listed_before(
    edges: Seq<(String, Vec<String>)>,
    e: int,
    d: int,
    a: Seq<char>,
    b: Seq<char>,
) -> bool {
    exists|e2: int, d2: int| #[trigger] edge_at(edges, e2, d2, a, b) && (e2 < e || (e2 == e && d2 < d))
}

fn index_of(states: &Vec<State>, name: &String) -> (r: Option<usize>)
    ensures
        match r {
            Some(i) => i < states.len() && states@[i as int].name@ == name@,
            None => !names_state(states@, name@),
        },
{
    let mut i: usize = 0;
    while i < states.len()
        invariant
            i <= states.len(),
            forall|k: int| 0 <= k < i ==> states@[k].name@ != name@,
        decreases states.len() - i,
    {
        if states[i].name.eq(name) {
            return Some(i);
        }
        i += 1;
    }
    None
}

/// An immutable Kripke structure with states indexed from zero.
#[derive(Debug, Clone)]
pub struct Model {
    states: Vec<State>,
    succ: Vec<Vec<usize>>,
    pred: Vec<Vec<usize>>,
}

impl View for Model {
    type V = Kripke;

    closed spec fn view(&self) -> Kripke {
        Kripke {
            names: Seq::new(self.states@.len(), |i: int| self.states@[i].name@),
            labels: Seq::new(self.states@.len(), |i: int| self.states@[i].labels()),
            succ: Seq::new(self.states@.len(), |i: int| idx_set(self.succ@[i]@)),
            pred: Seq::new(self.states@.len(), |i: int| idx_set(self.pred@[i]@)),
        }
    }
}


impl Model {
    /// One adjacency list per state, and every index in range.
    pub closed spec fn sound(&self) -> bool {
        &&& self.succ.len() == self.states.len()
        &&& self.pred.len() == self.states.len()
        &&& forall|i: int, k: int|
            0 <= i < self.succ.len() && 0 <= k < self.succ@[i].len() ==> #[trigger] self.succ@[i]@[k]
                < self.states.len()
        &&& forall|i: int, k: int|
            0 <= i < self.pred.len() && 0 <= k < self.pred@[i].len() ==> #[trigger] self.pred@[i]@[k]
                < self.states.len()
    }

    pub open spec fn inv(&self) -> bool {
        self.sound() && self@.wf()
    }

    /// Builds a model from its states, in order, and for each listed state
    /// name the names of its successors.
    pub fn new(states: Vec<State>, edges: Vec<(String, Vec<String>)>) -> (r: Result<
        Model,
        ModelCreationError,
    >)
        ensures
            match r {
                Ok(m) => {
                    &&& distinct_names(states@)
                    &&& edges_resolve(states@, edges@)
                    &&& m.inv()
                    &&& m@.n() == states.len()
                    &&& forall|i: int| 0 <= i < states.len() ==> m@.names[i] == states@[i].name@
                    &&& forall|i: int| 0 <= i < states.len() ==> m@.labels[i] == states@[i].labels()
                    &&& forall|i: int, j: int|
                        m@.valid(i) && m@.valid(j) ==> (m@.succ[i].contains(j) <==> lists_edge(
                            edges@,
                            m@.names[i],
                            m@.names[j],
                        ))
                },
                Err(ModelCreationError::DuplicateStateName(x)) => {
                    &&& !distinct_names(states@)
                    &&& exists|a: int, b: int|
                        0 <= a < b < states.len() && states@[a].name@ == x@ && states@[b].name@
                            == x@
                },
                Err(ModelCreationError::UnknownStateName(x)) => {
                    &&& distinct_names(states@)
                    &&& !edges_resolve(states@, edges@)
                    &&& !names_state(states@, x@)
                    &&& mentions(edges@, x@)
                },
            },
    {
        let n = states.len();
        let mut i: usize = 0;
        while i < n
            invariant
                n == states.len(),
                i <= n,
                forall|a: int, b: int|
                    0 <= a < i && 0 <= b < i && #[trigger] states@[a].name@ == #[trigger] states@[b].name@
                        ==> a == b,
            decreases n - i,
        {
            let mut j: usize = 0;
            while j < i
                invariant
                    n == states.len(),
                    j <= i < n,
                    forall|b: int| 0 <= b < j ==> states@[b].name@ != states@[i as int].name@,
                decreases i - j,
            {
                if states[i].name.eq(&states[j].name) {
                    return Err(ModelCreationError::DuplicateStateName(states[i].name.clone()));
                }
                j += 1;
            }
            i += 1;
        }
        let mut succ: Vec<Vec<usize>> = Vec::new();
        let mut pred: Vec<Vec<usize>> = Vec::new();
        let mut i: usize = 0;
        while i < n
            invariant
                i <= n,
                succ.len() == i,
                pred.len() == i,
                forall|k: int| 0 <= k < i ==> (#[trigger] succ@[k])@.len() == 0,
                forall|k: int| 0 <= k < i ==> (#[trigger] pred@[k])@.len() == 0,
            decreases n - i,
        {
            succ.push(Vec::new());
            pred.push(Vec::new());
            i += 1;
        }
        let ghost names = Seq::new(n as nat, |k: int| states@[k].name@);
        let mut e: usize = 0;
        while e < edges.len()
            invariant
                n == states.len(),
                distinct_names(states@),
                names == Seq::new(n as nat, |k: int| states@[k].name@),
                e <= edges.len(),
                succ.len() == n,
                forall|i: int, k: int|
                    0 <= i < n && 0 <= k < succ@[i].len() ==> #[trigger] succ@[i]@[k] < n,
                forall|e2: int|
                    0 <= e2 < e ==> {
                        &&& names_state(states@, (#[trigger] edges@[e2]).0@)
                        &&& forall|d: int|
                            0 <= d < edges@[e2].1.len() ==> names_state(
                                states@,
                                #[trigger] edges@[e2].1@[d]@,
                            )
                    },
                forall|i: int, j: int|
                    0 <= i < n && 0 <= j < n ==> (idx_set(succ@[i]@).contains(j) <==> listed_before(
                        edges@,
                        e as int,
                        0,
                        names[i],
                        names[j],
                    )),
            decreases edges.len() - e,
        {
            let src = match index_of(&states, &edges[e].0) {
                Some(src) => src,
                None => {
                    assert(mentions(edges@, edges@[e as int].0@));
                    return Err(ModelCreationError::UnknownStateName(edges[e].0.clone()));
                },
            };
            let mut d: usize = 0;
            while d < edges[e].1.len()
                invariant
                    n == states.len(),
                    distinct_names(states@),
                    names == Seq::new(n as nat, |k: int| states@[k].name@),
                    e < edges.len(),
                    d <= edges@[e as int].1.len(),
                    src < n,
                    states@[src as int].name@ == edges@[e as int].0@,
                    succ.len() == n,
                    forall|i: int, k: int|
                        0 <= i < n && 0 <= k < succ@[i].len() ==> #[trigger] succ@[i]@[k] < n,
                    forall|d2: int|
                        0 <= d2 < d ==> names_state(states@, #[trigger] edges@[e as int].1@[d2]@),
                    forall|i: int, j: int|
                        0 <= i < n && 0 <= j < n ==> (idx_set(succ@[i]@).contains(j)
                            <==> listed_before(edges@, e as int, d as int, names[i], names[j])),
                decreases edges@[e as int].1.len() - d,
            {
                let dst = match index_of(&states, &edges[e].1[d]) {
                    Some(dst) => dst,
                    None => {
                        assert(mentions(edges@, edges@[e as int].1@[d as int]@));
                        assert(!edges_resolve(states@, edges@));
                        return Err(ModelCreationError::UnknownStateName(edges[e].1[d].clone()));
                    },
                };
                let ghost old_succ = succ@;
                succ[src].push(dst);
                assert(succ@[src as int]@ == old_succ[src as int]@.push(dst));
                assert(forall|i: int| 0 <= i < n && i != src ==> succ@[i] == old_succ[i]);
                assert forall|i: int, j: int|
                    0 <= i < n && 0 <= j < n && #[trigger] idx_set(succ@[i]@).contains(j) implies listed_before(
                    edges@,
                    e as int,
                    d + 1,
                    names[i],
                    names[j],
                ) by {
                    if i == src && j == dst {
                        assert(edge_at(edges@, e as int, d as int, names[i], names[j]));
                    } else {
                        let k = choose|k: int|
                            0 <= k < succ@[i]@.len() && succ@[i]@[k] as int == j;
                        if i == src {
                            assert(old_succ[i]@[k] as int == j);
                        }
                        assert(idx_set(old_succ[i]@).contains(j));
                        assert(listed_before(edges@, e as int, d as int, names[i], names[j]));
                    }
                }
                assert forall|i: int, j: int|
                    0 <= i < n && 0 <= j < n && #[trigger] listed_before(edges@, e as int, d + 1, names[i], names[j])
                    implies idx_set(succ@[i]@).contains(j) by {
                    let (e2, d2) = choose|e2: int, d2: int|
                        #[trigger] edge_at(edges@, e2, d2, names[i], names[j]) && (e2 < e || (
                        e2 == e && d2 < d + 1));
                    if e2 == e && d2 == d {
                        assert(names[i] == names[src as int]);
                        assert(names[j] == names[dst as int]);
                        assert(i == src);
                        assert(j == dst);
                        assert(succ@[i]@[succ@[i]@.len() - 1] == dst);
                    } else {
                        assert(listed_before(edges@, e as int, d as int, names[i], names[j]));
                        assert(idx_set(old_succ[i]@).contains(j));
                        let k = choose|k: int|
                            0 <= k < old_succ[i]@.len() && old_succ[i]@[k] as int == j;
                        if i == src {
                            assert(succ@[i]@[k] as int == j);
                        }
                    }
                }
                d += 1;
            }
            assert forall|i: int, j: int|
                0 <= i < n && 0 <= j < n implies (idx_set(succ@[i]@).contains(j)
                <==> listed_before(edges@, e + 1, 0, names[i], names[j])) by {
                assert(idx_set(succ@[i]@).contains(j) <==> listed_before(edges@, e as int, d as int, names[i], names[j]));
                if listed_before(edges@, e as int, d as int, names[i], names[j]) {
                    let (e2, d2) = choose|e2: int, d2: int|
                        #[trigger] edge_at(edges@, e2, d2, names[i], names[j]) && (e2 < e || (e2
                            == e && d2 < d));
                    assert(listed_before(edges@, e + 1, 0, names[i], names[j]));
                }
                if listed_before(edges@, e + 1, 0, names[i], names[j]) {
                    let (e2, d2) = choose|e2: int, d2: int|
                        #[trigger] edge_at(edges@, e2, d2, names[i], names[j]) && (e2 < e + 1 || (e2
                            == e + 1 && d2 < 0));
                    assert(e2 < e || (e2 == e && d2 < edges@[e as int].1.len()));
                }
            }
            e += 1;
        }
        let ghost succ_final = succ@;
        let mut i: usize = 0;
        while i < n
            invariant
                n == states.len(),
                i <= n,
                succ@ == succ_final,
                succ.len() == n,
                pred.len() == n,
                forall|a: int, k: int|
                    0 <= a < n && 0 <= k < succ@[a].len() ==> #[trigger] succ@[a]@[k] < n,
                forall|a: int, k: int|
                    0 <= a < n && 0 <= k < pred@[a].len() ==> #[trigger] pred@[a]@[k] < i,
                forall|a: int, j: int|
                    0 <= a < n && 0 <= j < n ==> (#[trigger] idx_set(pred@[j]@).contains(a) <==> (a
                        < i && idx_set(succ@[a]@).contains(j))),
            decreases n - i,
        {
            let mut k: usize = 0;
            while k < succ[i].len()
                invariant
                    n == states.len(),
                    i < n,
                    k <= succ@[i as int].len(),
                    succ@ == succ_final,
                    succ.len() == n,
                    pred.len() == n,
                    forall|a: int, k2: int|
                        0 <= a < n && 0 <= k2 < succ@[a].len() ==> #[trigger] succ@[a]@[k2] < n,
                    forall|a: int, k2: int|
                        0 <= a < n && 0 <= k2 < pred@[a].len() ==> #[trigger] pred@[a]@[k2] <= i,
                    forall|a: int, j: int|
                        0 <= a < n && 0 <= j < n ==> (#[trigger] idx_set(pred@[j]@).contains(a) <==> (
                        a < i && idx_set(succ@[a]@).contains(j)) || (a == i && exists|k2: int|
                            0 <= k2 < k && succ@[i as int]@[k2] as int == j)),
                decreases succ@[i as int].len() - k,
            {
                let j = succ[i][k];
                let ghost old_pred = pred@;
                pred[j].push(i);
                assert forall|a: int, j2: int| 0 <= a < n && 0 <= j2 < n implies (#[trigger] idx_set(
                    pred@[j2]@,
                ).contains(a) <==> (a < i && idx_set(succ@[a]@).contains(j2)) || (a == i
                    && exists|k2: int| 0 <= k2 < k + 1 && succ@[i as int]@[k2] as int == j2)) by {
                    if j2 == j {
                        assert(pred@[j2]@ == old_pred[j2]@.push(i));
                        if idx_set(old_pred[j2]@).contains(a) {
                            let k3 = choose|k3: int|
                                0 <= k3 < old_pred[j2]@.len() && old_pred[j2]@[k3] as int == a;
                            assert(pred@[j2]@[k3] as int == a);
                        }
                        if idx_set(pred@[j2]@).contains(a) && a != i {
                            let k3 = choose|k3: int|
                                0 <= k3 < pred@[j2]@.len() && pred@[j2]@[k3] as int == a;
                            assert(old_pred[j2]@[k3] as int == a);
                        }
                        if a == i {
                            assert(pred@[j2]@[pred@[j2]@.len() - 1] as int == a);
                        }
                    } else {
                        assert(pred@[j2] == old_pred[j2]);
                    }
                }
                k += 1;
            }
            assert forall|a: int, j: int|
                0 <= a < n && 0 <= j < n implies (#[trigger] idx_set(pred@[j]@).contains(a) <==> (a
                < i + 1 && idx_set(succ@[a]@).contains(j))) by {
                if a == i && idx_set(succ@[a]@).contains(j) {
                    let k2 = choose|k2: int| 0 <= k2 < succ@[a]@.len() && succ@[a]@[k2] as int == j;
                    assert(succ@[i as int]@[k2] as int == j);
                }
            }
            i += 1;
        }
        let m = Model { states, succ, pred };
        assert(m@.names =~= names);
        assert forall|i: int, j: int| m@.valid(i) && m@.valid(j) implies (m@.succ[i].contains(j)
            <==> lists_edge(edges@, m@.names[i], m@.names[j])) by {
            assert(m@.names[i] == names[i] && m@.names[j] == names[j]);
            assert(m@.succ[i] == idx_set(m.succ@[i]@));
            if lists_edge(edges@, m@.names[i], m@.names[j]) {
                let (e2, d2) = choose|e2: int, d2: int| #[trigger]
                    edge_at(edges@, e2, d2, m@.names[i], m@.names[j]);
                assert(listed_before(edges@, edges@.len() as int, 0, names[i], names[j]));
            }
            if listed_before(edges@, edges@.len() as int, 0, names[i], names[j]) {
                let (e2, d2) = choose|e2: int, d2: int| #[trigger]
                    edge_at(edges@, e2, d2, names[i], names[j]) && (e2 < edges@.len() || (e2 == edges@.len() && d2 < 0));
                assert(lists_edge(edges@, m@.names[i], m@.names[j]));
            }
        }
        assert forall|i: int, j: int| #[trigger]
            m@.succ[i].contains(j) && m@.valid(i) implies m@.valid(j) by {
            assert(m@.succ[i] == idx_set(m.succ@[i]@));
            let k = choose|k: int| 0 <= k < m.succ@[i]@.len() && m.succ@[i]@[k] as int == j;
        }
        assert forall|j: int, i: int| #[trigger]
            m@.pred[j].contains(i) && m@.valid(j) implies m@.valid(i) by {
            assert(m@.pred[j] == idx_set(m.pred@[j]@));
            let k = choose|k: int| 0 <= k < m.pred@[j]@.len() && m.pred@[j]@[k] as int == i;
        }
        assert(m.sound());
        assert(m@.wf());
        Ok(m)
    }

    pub fn num_states(&self) -> (r: usize)
        ensures
            r == self@.n(),
    {
        self.states.len()
    }

    /// The state at index `i`.
    pub fn get_state(&self, i: usize) -> (r: &State)
        requires
            i < self@.n(),
        ensures
            r.name@ == self@.names[i as int],
            r.labels() == self@.labels[i as int],
    {
        &self.states[i]
    }

    /// The states reachable from state `i` in one transition.
    pub fn successors(&self, i: usize) -> (r: &Vec<usize>)
        requires
            self.inv(),
            i < self@.n(),
        ensures
            idx_set(r@) == self@.succ[i as int],
            forall|k: int| 0 <= k < r.len() ==> #[trigger] r@[k] < self@.n(),
    {
        &self.succ[i]
    }

    /// The states from which state `j` is reachable in one transition.
    pub fn predecessors(&self, j: usize) -> (r: &Vec<usize>)
        requires
            self.inv(),
            j < self@.n(),
        ensures
            idx_set(r@) == self@.pred[j as int],
            forall|k: int| 0 <= k < r.len() ==> #[trigger] r@[k] < self@.n(),
    {
        &self.pred[j]
    }

    /// The index of the state named `name`.
    pub fn get_idx(&self, name: &String) -> (r: Option<usize>)
        ensures
            match r {
                Some(i) => i < self@.n() && self@.names[i as int] == name@,
                None => !self@.has_name(name@),
            },
    {
        index_of(&self.states, name)
    }

    /// Every state, as a membership vector.
    pub fn all_idx(&self) -> (r: Vec<bool>)
        ensures
            r.len() == self@.n(),
            set_of(r@) == self@.all(),
    {
        let mut r: Vec<bool> = Vec::new();
        let mut i: usize = 0;
        while i < self.states.len()
            invariant
                i <= self.states.len(),
                r.len() == i,
                forall|k: int| 0 <= k < i ==> r@[k],
            decreases self.states.len() - i,
        {
            r.push(true);
            i += 1;
        }
        assert(set_of(r@) =~= self@.all());
        r
    }

    /// The states labelled with `var`.
    pub fn all_containing_idx(&self, var: &String) -> (r: Vec<bool>)
        ensures
            r.len() == self@.n(),
            set_of(r@) == self@.containing(var@),
    {
        let mut r: Vec<bool> = Vec::new();
        let mut i: usize = 0;
        while i < self.states.len()
            invariant
                i <= self.states.len(),
                r.len() == i,
                forall|k: int| 0 <= k < i ==> r@[k] == self.states@[k].labels().contains(var@),
            decreases self.states.len() - i,
        {
            let b = self.states[i].contains(var);
            r.push(b);
            i += 1;
        }
        assert(set_of(r@) =~= self@.containing(var@));
        r
    }

    /// The states outside `s`.
    pub fn all_except_idx(&self, s: &Vec<bool>) -> (r: Vec<bool>)
        requires
            s.len() == self@.n(),
        ensures
            r.len() == self@.n(),
            set_of(r@) == self@.complement(set_of(s@)),
    {
        let mut r: Vec<bool> = Vec::new();
        let mut i: usize = 0;
        while i < s.len()
            invariant
                i <= s.len(),
                r.len() == i,
                forall|k: int| 0 <= k < i ==> r@[k] == !s@[k],
            decreases s.len() - i,
        {
            r.push(!s[i]);
            i += 1;
        }
        assert(set_of(r@) =~= self@.complement(set_of(s@)));
        r
    }

    /// The existential predecessors of `s`.
    pub fn pre_e_idx(&self, s: &Vec<bool>) -> (r: Vec<bool>)
        requires
            self.inv(),
            s.len() == self@.n(),
        ensures
            r.len() == self@.n(),
            set_of(r@) == self@.pre_e(set_of(s@)),
    {
        let n = self.states.len();
        let mut r: Vec<bool> = Vec::new();
        let mut i: usize = 0;
        while i < n
            invariant
                i <= n,
                r.len() == i,
                forall|k: int| 0 <= k < i ==> !r@[k],
            decreases n - i,
        {
            r.push(false);
            i += 1;
        }
        let mut j: usize = 0;
        while j < n
            invariant
                self.inv(),
                n == self@.n(),
                s.len() == n,
                j <= n,
                r.len() == n,
                forall|a: int|
                    0 <= a < n ==> (r@[a] <==> exists|b: int|
                        0 <= b < j && s@[b] && #[trigger] self@.pred[b].contains(a)),
            decreases n - j,
        {
            if s[j] {
                let ps = &self.pred[j];
                let mut k: usize = 0;
                while k < ps.len()
                    invariant
                        self.inv(),
                        n == self@.n(),
                        s.len() == n,
                        j < n,
                        s@[j as int],
                        ps@ == self.pred@[j as int]@,
                        k <= ps.len(),
                        r.len() == n,
                        forall|a: int|
                            0 <= a < n ==> (r@[a] <==> (exists|b: int|
                                0 <= b < j && s@[b] && #[trigger] self@.pred[b].contains(a)) || exists|
                                k2: int,
                            | 0 <= k2 < k && ps@[k2] as int == a),
                    decreases ps.len() - k,
                {
                    let a = ps[k];
                    r.set(a, true);
                    k += 1;
                }
                assert forall|a: int|
                    0 <= a < n implies (r@[a] <==> exists|b: int|
                        0 <= b < j + 1 && s@[b] && #[trigger] self@.pred[b].contains(a)) by {
                    assert(self@.pred[j as int] == idx_set(ps@));
                    if exists|k2: int| 0 <= k2 < ps.len() && ps@[k2] as int == a {
                        assert(self@.pred[j as int].contains(a));
                    }
                }
            } else {
                assert forall|a: int|
                    0 <= a < n implies (r@[a] <==> exists|b: int|
                        0 <= b < j + 1 && s@[b] && #[trigger] self@.pred[b].contains(a)) by {
                    if exists|b: int| 0 <= b < j + 1 && s@[b] && #[trigger] self@.pred[b].contains(a) {
                        let b = choose|b: int|
                            0 <= b < j + 1 && s@[b] && #[trigger] self@.pred[b].contains(a);
                        assert(b != j);
                    }
                }
            }
            j += 1;
        }
        assert forall|a: int| #[trigger] set_of(r@).contains(a) implies self@.pre_e(set_of(s@)).contains(a) by {
            let b = choose|b: int| 0 <= b < n && s@[b] && #[trigger] self@.pred[b].contains(a);
            assert(self@.succ[a].contains(b));
            assert(set_of(s@).contains(b));
        }
        assert forall|a: int| #[trigger] self@.pre_e(set_of(s@)).contains(a) implies set_of(r@).contains(a) by {
            let b = choose|b: int| self@.succ[a].contains(b) && set_of(s@).contains(b);
            assert(self@.valid(b));
            assert(self@.pred[b].contains(a));
            assert(r@[a]);
        }
        assert(set_of(r@) =~= self@.pre_e(set_of(s@)));
        r
    }

    /// The universal predecessors of `s`.
    pub fn pre_a_idx(&self, s: &Vec<bool>) -> (r: Vec<bool>)
        requires
            self.inv(),
            s.len() == self@.n(),
        ensures
            r.len() == self@.n(),
            set_of(r@) == self@.pre_a(set_of(s@)),
    {
        let n = self.states.len();
        let mut r: Vec<bool> = Vec::new();
        let mut i: usize = 0;
        while i < n
            invariant
                self.inv(),
                n == self@.n(),
                s.len() == n,
                i <= n,
                r.len() == i,
                forall|a: int| 0 <= a < i ==> (r@[a] <==> self@.pre_a(set_of(s@)).contains(a)),
            decreases n - i,
        {
            let ss = &self.succ[i];
            let mut all = true;
            let mut k: usize = 0;
            while k < ss.len()
                invariant
                    self.inv(),
                    n == self@.n(),
                    s.len() == n,
                    i < n,
                    ss@ == self.succ@[i as int]@,
                    k <= ss.len(),
                    all <==> forall|k2: int| 0 <= k2 < k ==> s@[#[trigger] ss@[k2] as int],
                decreases ss.len() - k,
            {
                if !s[ss[k]] {
                    all = false;
                }
                k += 1;
            }
            proof {
                assert(self@.succ[i as int] == idx_set(ss@));
                if all {
                    assert forall|j: int| #[trigger] self@.succ[i as int].contains(j) implies set_of(
                        s@,
                    ).contains(j) by {
                        let k2 = choose|k2: int| 0 <= k2 < ss.len() && ss@[k2] as int == j;
                        assert(s@[ss@[k2] as int]);
                    }
                } else {
                    let k2 = choose|k2: int| 0 <= k2 < ss.len() && !s@[#[trigger] ss@[k2] as int];
                    assert(self@.succ[i as int].contains(ss@[k2] as int));
                }
            }
            r.push(all);
            i += 1;
        }
        assert(set_of(r@) =~= self@.pre_a(set_of(s@)));
        r
    }

    /// The names of the states of `s`, in index order.
    pub fn get_names(&self, s: &Vec<bool>) -> (r: Vec<String>)
        requires
            s.len() == self@.n(),
        ensures
            r@.map_values(|x: String| x@) == self@.names_of(set_of(s@)),
    {
        let mut r: Vec<String> = Vec::new();
        let mut i: usize = 0;
        while i < s.len()
            invariant
                i <= s.len(),
                s.len() == self@.n(),
                r@.map_values(|x: String| x@) == self@.names_upto(set_of(s@), i as int),
            decreases s.len() - i,
        {
            if s[i] {
                r.push(self.states[i].name.clone());
                assert(r@.map_values(|x: String| x@) =~= self@.names_upto(set_of(s@), i as int).push(
                    self@.names[i as int],
                ));
            }
            i += 1;
        }
        r
    }
}

impl Model {
    /// The names of all states, in index order.
    pub fn all(&self) -> (r: Vec<String>)
        ensures
            r@.map_values(|x: String| x@) == self@.names_of(self@.all()),
    {
        let s = self.all_idx();
        self.get_names(&s)
    }

    /// The names of the states labelled with `var`, in index order.
    pub fn all_containing(&self, var: &String) -> (r: Vec<String>)
        ensures
            r@.map_values(|x: String| x@) == self@.names_of(self@.containing(var@)),
    {
        let s = self.all_containing_idx(var);
        self.get_names(&s)
    }

    /// The names of the states not named in `names`, in index order; `None`
    /// when `names` holds a name that no state has.
    pub fn all_except(&self, names: &Vec<String>) -> (r: Option<Vec<String>>)
        requires
            self.inv(),
        ensures
            match r {
                None => exists|j: int| 0 <= j < names.len() && !self@.has_name(#[trigger] names@[j]@),
                Some(v) => {
                    &&& forall|j: int| 0 <= j < names.len() ==> self@.has_name(#[trigger] names@[j]@)
                    &&& v@.map_values(|x: String| x@) == self@.names_of(
                        self@.complement(self@.named(names@.map_values(|x: String| x@))),
                    )
                },
            },
    {
        let n = self.states.len();
        let ghost want = names@.map_values(|x: String| x@);
        let mut mask: Vec<bool> = Vec::new();
        let mut i: usize = 0;
        while i < n
            invariant
                n == self@.n(),
                i <= n,
                mask.len() == i,
                forall|k: int| 0 <= k < i ==> !mask@[k],
            decreases n - i,
        {
            mask.push(false);
            i += 1;
        }
        let mut j: usize = 0;
        while j < names.len()
            invariant
                self.inv(),
                n == self@.n(),
                mask.len() == n,
                j <= names.len(),
                want == names@.map_values(|x: String| x@),
                forall|j2: int| 0 <= j2 < j ==> self@.has_name(#[trigger] names@[j2]@),
                set_of(mask@) == self@.named(want.take(j as int)),
            decreases names.len() - j,
        {
            match self.get_idx(&names[j]) {
                Some(k) => {
                    let ghost before = mask@;
                    mask.set(k, true);
                    proof {
                        let t0 = want.take(j as int);
                        let t1 = want.take(j + 1);
                        assert(want[j as int] == names@[j as int]@);
                        assert(t1 =~= t0.push(names@[j as int]@));
                        assert(self@.names[k as int] == names@[j as int]@);
                        assert(self@.valid(k as int) && self@.names[k as int] == names@[j as int]@);
                        assert(self@.has_name(names@[j as int]@));
                        assert forall|x: int| #[trigger] set_of(mask@).contains(x) == self@.named(t1).contains(x) by {
                            if self@.valid(x) {
                                let nm = self@.names[x];
                                assert(set_of(before).contains(x) == self@.named(t0).contains(x));
                                assert(self@.named(t0).contains(x) == t0.contains(nm));
                                assert(self@.named(t1).contains(x) == t1.contains(nm));
                                if x == k {
                                    assert(t1[j as int] == nm);
                                    assert(t1.contains(nm));
                                    assert(mask@[x]);
                                } else {
                                    assert(mask@[x] == before[x]);
                                    assert(nm != names@[j as int]@);
                                    if t1.contains(nm) {
                                        let y = choose|y: int| 0 <= y < t1.len() && #[trigger] t1[y] == nm;
                                        assert(y != j);
                                        assert(t0[y] == nm);
                                        assert(t0.contains(nm));
                                    }
                                    if t0.contains(nm) {
                                        let y = choose|y: int| 0 <= y < t0.len() && #[trigger] t0[y] == nm;
                                        assert(t1[y] == nm);
                                        assert(t1.contains(nm));
                                    }
                                }
                            }
                        }
                        assert(set_of(mask@) =~= self@.named(t1));
                    }
                },
                None => {
                    return None;
                },
            }
            j += 1;
        }
        proof {
            assert(want.take(names.len() as int) =~= want);
        }
        let rest = self.all_except_idx(&mask);
        Some(self.get_names(&rest))
    }
}

/// In every model, state `j` is a successor of state `i` exactly when state
/// `i` is a predecessor of state `j`.
pub proof fn lemma_pred_is_transpose(m: &Model, i: int, j: int)
    requires
        m.inv(),
        m@.valid(i),
        m@.valid(j),
    ensures
        m@.succ[i].contains(j) <==> m@.pred[j].contains(i),
{
}

} // verus!
