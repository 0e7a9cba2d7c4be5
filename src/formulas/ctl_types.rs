use std::collections::HashMap;
use std::rc::Rc;
use vstd::prelude::*;

verus! {

/// An atomic proposition of a CTL formula.
#[derive(Debug, Hash, Clone, PartialEq, Eq)]
pub struct CTLVariable {
    pub inner: String,
}

impl CTLVariable {
    pub fn new(inner: String) -> (r: Self)
        ensures
            r.inner == inner,
    {
        Self { inner }
    }
}

/// A CTL formula; children are shared through reference counting.
#[derive(Debug, Hash, Clone, PartialEq, Eq)]
pub enum CTLFormula {
    Top,
    Bot,
    Atomic(CTLVariable),
    Neg(Rc<CTLFormula>),
    And(Rc<CTLFormula>, Rc<CTLFormula>),
    Or(Rc<CTLFormula>, Rc<CTLFormula>),
    ImpliesR(Rc<CTLFormula>, Rc<CTLFormula>),
    ImpliesL(Rc<CTLFormula>, Rc<CTLFormula>),
    BiImplies(Rc<CTLFormula>, Rc<CTLFormula>),
    EX(Rc<CTLFormula>),
    EF(Rc<CTLFormula>),
    EG(Rc<CTLFormula>),
    EU(Rc<CTLFormula>, Rc<CTLFormula>),
    AX(Rc<CTLFormula>),
    AF(Rc<CTLFormula>),
    AG(Rc<CTLFormula>),
    AU(Rc<CTLFormula>, Rc<CTLFormula>),
}

/// The unary connectives of CTL.
#[derive(Debug, Hash, Clone, Copy, PartialEq, Eq, Structural)]
pub enum CtlUnOp {
    Neg,
    EX,
    EF,
    EG,
    AX,
    AF,
    AG,
}

/// The binary connectives of CTL.
#[derive(Debug, Hash, Clone, Copy, PartialEq, Eq, Structural)]
pub enum CtlBinOp {
    And,
    Or,
    ImpliesR,
    ImpliesL,
    BiImplies,
    EU,
    AU,
}

/// The mathematical value of a CTL formula: a finite tree, with structural
/// equality.
pub enum CtlTree {
    Top,
    Bot,
    Atomic(Seq<char>),
    Unary(CtlUnOp, Box<CtlTree>),
    Binary(CtlBinOp, Box<CtlTree>, Box<CtlTree>),
}

impl CtlTree {
    /// The number of nodes of the tree.
    pub open spec fn size(self) -> nat
        decreases self,
    {
        match self {
            CtlTree::Unary(_, a) => 1 + a.size(),
            CtlTree::Binary(_, a, b) => 1 + a.size() + b.size(),
            _ => 1,
        }
    }
}

/// The sub-formulas of `f`, `f` included.
pub open spec fn subterms(f: CtlTree) -> Set<CtlTree>
    decreases f,
{
    match f {
        CtlTree::Unary(_, a) => subterms(*a).insert(f),
        CtlTree::Binary(_, a, b) => subterms(*a).union(subterms(*b)).insert(f),
        _ => Set::empty().insert(f),
    }
}

/// Whether `t` is a sub-formula of one of the first `n` of `fs`.
pub open spec fn sub_of_some(t: CtlTree, fs: Seq<Rc<CTLFormula>>, n: int) -> bool {
    exists|j: int| 0 <= j < n && #[trigger] subterms(fs[j]@).contains(t)
}

/// A formula is one of its own sub-formulas.
pub proof fn lemma_subterms_self(f: CtlTree)
    ensures
        subterms(f).contains(f),
{
}

pub open spec fn un(op: CtlUnOp, a: CtlTree) -> CtlTree {
    CtlTree::Unary(op, Box::new(a))
}

pub open spec fn bin(op: CtlBinOp, a: CtlTree, b: CtlTree) -> CtlTree {
    CtlTree::Binary(op, Box::new(a), Box::new(b))
}

impl View for CTLFormula {
    type V = CtlTree;

    open spec fn view(&self) -> CtlTree
        decreases self,
    {
        match self {
            CTLFormula::Top => CtlTree::Top,
            CTLFormula::Bot => CtlTree::Bot,
            CTLFormula::Atomic(v) => CtlTree::Atomic(v.inner@),
            CTLFormula::Neg(a) => un(CtlUnOp::Neg, (**a).view()),
            CTLFormula::EX(a) => un(CtlUnOp::EX, (**a).view()),
            CTLFormula::EF(a) => un(CtlUnOp::EF, (**a).view()),
            CTLFormula::EG(a) => un(CtlUnOp::EG, (**a).view()),
            CTLFormula::AX(a) => un(CtlUnOp::AX, (**a).view()),
            CTLFormula::AF(a) => un(CtlUnOp::AF, (**a).view()),
            CTLFormula::AG(a) => un(CtlUnOp::AG, (**a).view()),
            CTLFormula::And(a, b) => bin(CtlBinOp::And, (**a).view(), (**b).view()),
            CTLFormula::Or(a, b) => bin(CtlBinOp::Or, (**a).view(), (**b).view()),
            CTLFormula::ImpliesR(a, b) => bin(CtlBinOp::ImpliesR, (**a).view(), (**b).view()),
            CTLFormula::ImpliesL(a, b) => bin(CtlBinOp::ImpliesL, (**a).view(), (**b).view()),
            CTLFormula::BiImplies(a, b) => bin(CtlBinOp::BiImplies, (**a).view(), (**b).view()),
            CTLFormula::EU(a, b) => bin(CtlBinOp::EU, (**a).view(), (**b).view()),
            CTLFormula::AU(a, b) => bin(CtlBinOp::AU, (**a).view(), (**b).view()),
        }
    }
}

fn make_unary(op: CtlUnOp, a: Rc<CTLFormula>) -> (r: CTLFormula)
    ensures
        r@ == un(op, a@),
{
    match op {
        CtlUnOp::Neg => CTLFormula::Neg(a),
        CtlUnOp::EX => CTLFormula::EX(a),
        CtlUnOp::EF => CTLFormula::EF(a),
        CtlUnOp::EG => CTLFormula::EG(a),
        CtlUnOp::AX => CTLFormula::AX(a),
        CtlUnOp::AF => CTLFormula::AF(a),
        CtlUnOp::AG => CTLFormula::AG(a),
    }
}

fn make_binary(op: CtlBinOp, a: Rc<CTLFormula>, b: Rc<CTLFormula>) -> (r: CTLFormula)
    ensures
        r@ == bin(op, a@, b@),
{
    match op {
        CtlBinOp::And => CTLFormula::And(a, b),
        CtlBinOp::Or => CTLFormula::Or(a, b),
        CtlBinOp::ImpliesR => CTLFormula::ImpliesR(a, b),
        CtlBinOp::ImpliesL => CTLFormula::ImpliesL(a, b),
        CtlBinOp::BiImplies => CTLFormula::BiImplies(a, b),
        CtlBinOp::EU => CTLFormula::EU(a, b),
        CtlBinOp::AU => CTLFormula::AU(a, b),
    }
}

impl CTLFormula {
    /// The number of nodes of the formula's tree, counting shared
    /// sub-formulas once per occurrence.
    pub fn total_size(&self) -> (r: usize)
        requires
            self@.size() <= usize::MAX,
        ensures
            r == self@.size(),
        decreases self,
    {
        match self {
            CTLFormula::Top | CTLFormula::Bot | CTLFormula::Atomic(_) => 1,
            CTLFormula::Neg(a) | CTLFormula::EX(a) | CTLFormula::EF(a) | CTLFormula::EG(a)
            | CTLFormula::AX(a) | CTLFormula::AF(a) | CTLFormula::AG(a) => 1 + a.total_size(),
            CTLFormula::And(a, b) | CTLFormula::Or(a, b) | CTLFormula::ImpliesR(a, b)
            | CTLFormula::ImpliesL(a, b) | CTLFormula::BiImplies(a, b) | CTLFormula::EU(a, b)
            | CTLFormula::AU(a, b) => 1 + a.total_size() + b.total_size(),
        }
    }
}


/// One node of a factory's table: a connective over the indices of earlier
/// nodes.
#[derive(Debug, Clone, PartialEq, Eq)]
pub enum CtlNode {
    Top,
    Bot,
    Atomic(String),
    Unary(CtlUnOp, usize),
    Binary(CtlBinOp, usize, usize),
}

/// Whether two nodes denote the same connective over the same children.
pub open spec fn same_node(a: CtlNode, b: CtlNode) -> bool {
    match a {
        CtlNode::Atomic(x) => match b {
            CtlNode::Atomic(y) => x@ == y@,
            _ => false,
        },
        _ => a == b,
    }
}

/// Whether every child of `node` is an index below `k`.
pub open spec fn children_below(node: CtlNode, k: int) -> bool {
    match node {
        CtlNode::Unary(_, a) => a < k,
        CtlNode::Binary(_, a, b) => a < k && b < k,
        _ => true,
    }
}

/// A table is well formed when each node refers only to earlier nodes and no
/// two nodes are the same.
pub open spec fn table_wf(nodes: Seq<CtlNode>) -> bool {
    &&& forall|i: int| 0 <= i < nodes.len() ==> children_below(#[trigger] nodes[i], i)
    &&& forall|i: int, j: int|
        0 <= i < nodes.len() && 0 <= j < nodes.len() && i != j ==> !same_node(
            #[trigger] nodes[i],
            #[trigger] nodes[j],
        )
}

/// The formula that entry `i` of a table stands for.
pub open spec fn term_of(nodes: Seq<CtlNode>, i: int) -> CtlTree
    decreases i,
{
    if 0 <= i < nodes.len() && children_below(nodes[i], i) {
        match nodes[i] {
            CtlNode::Top => CtlTree::Top,
            CtlNode::Bot => CtlTree::Bot,
            CtlNode::Atomic(s) => CtlTree::Atomic(s@),
            CtlNode::Unary(op, a) => un(op, term_of(nodes, a as int)),
            CtlNode::Binary(op, a, b) => bin(op, term_of(nodes, a as int), term_of(nodes, b as int)),
        }
    } else {
        CtlTree::Top
    }
}

/// The formula that `node` stands for over the entries of `nodes`.
pub open spec fn node_term(nodes: Seq<CtlNode>, node: CtlNode) -> CtlTree {
    match node {
        CtlNode::Top => CtlTree::Top,
        CtlNode::Bot => CtlTree::Bot,
        CtlNode::Atomic(s) => CtlTree::Atomic(s@),
        CtlNode::Unary(op, a) => un(op, term_of(nodes, a as int)),
        CtlNode::Binary(op, a, b) => bin(op, term_of(nodes, a as int), term_of(nodes, b as int)),
    }
}

pub proof fn lemma_term_unfold(nodes: Seq<CtlNode>, i: int)
    requires
        table_wf(nodes),
        0 <= i < nodes.len(),
    ensures
        term_of(nodes, i) == node_term(nodes, nodes[i]),
{
    assert(children_below(nodes[i], i));
}

/// Appending to a table keeps what its entries stand for.
proof fn lemma_term_prefix(small: Seq<CtlNode>, big: Seq<CtlNode>, i: int)
    requires
        small.len() <= big.len(),
        forall|k: int| 0 <= k < small.len() ==> big[k] == small[k],
        0 <= i < small.len(),
    ensures
        term_of(big, i) == term_of(small, i),
    decreases i,
{
    assert(big[i] == small[i]);
    if children_below(small[i], i) {
        match small[i] {
            CtlNode::Unary(_, a) => lemma_term_prefix(small, big, a as int),
            CtlNode::Binary(_, a, b) => {
                lemma_term_prefix(small, big, a as int);
                lemma_term_prefix(small, big, b as int);
            },
            _ => {},
        }
    }
}

/// In a well-formed table distinct entries stand for distinct formulas.
pub proof fn lemma_term_injective(nodes: Seq<CtlNode>, i: int, j: int)
    requires
        table_wf(nodes),
        0 <= i < nodes.len(),
        0 <= j < nodes.len(),
        term_of(nodes, i) == term_of(nodes, j),
    ensures
        i == j,
    decreases i + j,
{
    lemma_term_unfold(nodes, i);
    lemma_term_unfold(nodes, j);
    assert(children_below(nodes[i], i));
    assert(children_below(nodes[j], j));
    match nodes[i] {
        CtlNode::Unary(op, a) => {
            match nodes[j] {
                CtlNode::Unary(op2, a2) => {
                    lemma_term_injective(nodes, a as int, a2 as int);
                },
                _ => {},
            }
        },
        CtlNode::Binary(op, a, b) => {
            match nodes[j] {
                CtlNode::Binary(op2, a2, b2) => {
                    lemma_term_injective(nodes, a as int, a2 as int);
                    lemma_term_injective(nodes, b as int, b2 as int);
                },
                _ => {},
            }
        },
        _ => {},
    }
    if i != j {
        assert(!same_node(nodes[i], nodes[j]));
    }
}

/// The position of a unary connective among the unary connectives.
pub open spec fn un_index(op: CtlUnOp) -> int {
    match op {
        CtlUnOp::Neg => 0,
        CtlUnOp::EX => 1,
        CtlUnOp::EF => 2,
        CtlUnOp::EG => 3,
        CtlUnOp::AX => 4,
        CtlUnOp::AF => 5,
        CtlUnOp::AG => 6,
    }
}

/// The position of a binary connective among the binary connectives.
pub open spec fn bin_index(op: CtlBinOp) -> int {
    match op {
        CtlBinOp::And => 0,
        CtlBinOp::Or => 1,
        CtlBinOp::ImpliesR => 2,
        CtlBinOp::ImpliesL => 3,
        CtlBinOp::BiImplies => 4,
        CtlBinOp::EU => 5,
        CtlBinOp::AU => 6,
    }
}

/// The structural key under which a node is filed in the factory's index:
/// equal nodes have equal keys (all atoms share one).
pub open spec fn node_key(node: CtlNode) -> int {
    match node {
        CtlNode::Top => 0,
        CtlNode::Bot => 1,
        CtlNode::Atomic(_) => 2,
        CtlNode::Unary(op, a) => 3 + un_index(op) + 32 * a,
        CtlNode::Binary(op, a, b) => 16 + bin_index(op) + 32 * (a + b),
    }
}

fn key_of(node: &CtlNode) -> (k: u128)
    ensures
        k as int == node_key(*node),
{
    match node {
        CtlNode::Top => 0,
        CtlNode::Bot => 1,
        CtlNode::Atomic(_) => 2,
        CtlNode::Unary(op, a) => {
            let t: u128 = match op {
                CtlUnOp::Neg => 0,
                CtlUnOp::EX => 1,
                CtlUnOp::EF => 2,
                CtlUnOp::EG => 3,
                CtlUnOp::AX => 4,
                CtlUnOp::AF => 5,
                CtlUnOp::AG => 6,
            };
            3 + t + 32 * (*a as u128)
        },
        CtlNode::Binary(op, a, b) => {
            let t: u128 = match op {
                CtlBinOp::And => 0,
                CtlBinOp::Or => 1,
                CtlBinOp::ImpliesR => 2,
                CtlBinOp::ImpliesL => 3,
                CtlBinOp::BiImplies => 4,
                CtlBinOp::EU => 5,
                CtlBinOp::AU => 6,
            };
            16 + t + 32 * (*a as u128 + *b as u128)
        },
    }
}

fn node_matches(a: &CtlNode, b: &CtlNode) -> (r: bool)
    ensures
        r == same_node(*a, *b),
{
    match (a, b) {
        (CtlNode::Top, CtlNode::Top) => true,
        (CtlNode::Bot, CtlNode::Bot) => true,
        (CtlNode::Atomic(x), CtlNode::Atomic(y)) => x.eq(y),
        (CtlNode::Unary(op, x), CtlNode::Unary(op2, y)) => *op == *op2 && *x == *y,
        (CtlNode::Binary(op, x, y), CtlNode::Binary(op2, x2, y2)) => *op == *op2 && *x == *x2 && *y
            == *y2,
        _ => false,
    }
}

/// A hash-consing table of CTL formulas: every distinct sub-formula that was
/// passed through it has one entry, and one shared handle.
#[derive(Debug, Clone)]
pub struct CTLFactory {
    nodes: Vec<CtlNode>,
    handles: Vec<Rc<CTLFormula>>,
    index: HashMap<u128, Vec<usize>>,
}

impl CTLFactory {
    /// The table of entries.
    pub closed spec fn table(&self) -> Seq<CtlNode> {
        self.nodes@
    }

    pub closed spec fn wf(&self) -> bool {
        &&& table_wf(self.nodes@)
        &&& self.handles.len() == self.nodes.len()
        &&& forall|i: int| 0 <= i < self.nodes.len() ==> (#[trigger] self.handles@[i])@ == term_of(self.nodes@, i)
        &&& forall|i: int|
            0 <= i < self.nodes.len() ==> {
                let k = node_key(#[trigger] self.nodes@[i]) as u128;
                &&& self.index@.contains_key(k)
                &&& self.index@[k]@.contains(i as usize)
            }
        &&& forall|k: u128, j: int| #[trigger]
            self.index@.contains_key(k) && 0 <= j < self.index@[k].len() ==> #[trigger] self.index@[k]@[j]
                < self.nodes.len()
    }

    /// The number of entries.
    pub open spec fn len(&self) -> nat {
        self.table().len()
    }

    /// The formula that entry `i` stands for.
    pub open spec fn term(&self, i: int) -> CtlTree {
        term_of(self.table(), i)
    }

    /// The shared handle stored for entry `i`.
    pub closed spec fn stored_handle(&self, i: int) -> Rc<CTLFormula> {
        self.handles@[i]
    }

    /// Whether some entry stands for `t`.
    pub open spec fn holds(&self, t: CtlTree) -> bool {
        exists|k: int| 0 <= k < self.len() && self.term(k) == t
    }

    /// Whether every formula of `s` has an entry.
    pub open spec fn holds_all(&self, s: Set<CtlTree>) -> bool {
        forall|t: CtlTree| #[trigger] s.contains(t) ==> self.holds(t)
    }

    /// Whether every entry that `self` has beyond those of `old` stands for a
    /// formula of `s`.
    pub open spec fn adds_only(&self, old: &CTLFactory, s: Set<CtlTree>) -> bool {
        forall|k: int| old.len() <= k < self.len() ==> s.contains(#[trigger] self.term(k))
    }

    /// Whether every entry of `old` keeps its stored handle in `self`.
    pub open spec fn keeps_handles(&self, old: &CTLFactory) -> bool {
        forall|k: int| 0 <= k < old.len() ==> #[trigger] self.stored_handle(k) == old.stored_handle(k)
    }

    /// Whether `self` holds every entry of `old`, at the same index.
    pub open spec fn extends(&self, old: &CTLFactory) -> bool {
        &&& old.len() <= self.len()
        &&& forall|k: int| 0 <= k < old.len() ==> #[trigger] self.table()[k] == old.table()[k]
    }

    /// Whether every entry of `old` stands for the same formula in `self`.
    pub open spec fn keeps_terms(&self, old: &CTLFactory) -> bool {
        forall|k: int| 0 <= k < old.len() ==> #[trigger] self.term(k) == old.term(k)
    }

    pub proof fn lemma_wf(&self)
        requires
            self.wf(),
        ensures
            table_wf(self.table()),
    {
    }

    /// An extension keeps what the entries of `old` stand for.
    pub proof fn lemma_extends_terms(&self, old: &CTLFactory, i: int)
        requires
            self.extends(old),
            0 <= i < old.len(),
        ensures
            self.term(i) == old.term(i),
    {
        lemma_term_prefix(old.table(), self.table(), i);
    }

    /// An empty factory.
    pub fn new() -> (r: Self)
        ensures
            r.wf(),
            r.len() == 0,
    {
        broadcast use vstd::std_specs::hash::group_hash_axioms;

        CTLFactory { nodes: Vec::new(), handles: Vec::new(), index: HashMap::new() }
    }

    /// A factory seeded with `formulas`: it holds each of them, and its
    /// entries are their sub-formulas.
    pub fn from_formulas(formulas: &Vec<Rc<CTLFormula>>) -> (r: Self)
        ensures
            r.wf(),
            forall|i: int| 0 <= i < formulas.len() ==> r.holds((#[trigger] formulas@[i])@),
            forall|k: int| 0 <= k < r.len() ==> sub_of_some(#[trigger] r.term(k), formulas@, formulas@.len() as int),
    {
        let mut r = CTLFactory::new();
        let mut i: usize = 0;
        while i < formulas.len()
            invariant
                r.wf(),
                i <= formulas.len(),
                forall|j: int| 0 <= j < i ==> r.holds((#[trigger] formulas@[j])@),
                forall|k: int| 0 <= k < r.len() ==> sub_of_some(#[trigger] r.term(k), formulas@, i as int),
            decreases formulas.len() - i,
        {
            let ghost before = r;
            let _ = r.intern(&formulas[i]);
            proof {
                assert forall|j: int| 0 <= j < i + 1 implies r.holds((#[trigger] formulas@[j])@) by {
                    if j < i {
                        assert(before.holds(formulas@[j]@));
                        let k = choose|k: int| 0 <= k < before.len() && before.term(k) == formulas@[j]@;
                        assert(r.term(k) == before.term(k));
                    } else {
                        lemma_subterms_self(formulas@[j]@);
                    }
                }
                assert forall|k: int| 0 <= k < r.len() implies sub_of_some(#[trigger] r.term(k), formulas@, i + 1) by {
                    if k < before.len() {
                        assert(r.term(k) == before.term(k));
                        assert(sub_of_some(before.term(k), formulas@, i as int));
                        let j = choose|j: int| 0 <= j < i && subterms(formulas@[j]@).contains(before.term(k));
                        assert(subterms(formulas@[j]@).contains(r.term(k)));
                    } else {
                        assert(subterms(formulas@[i as int]@).contains(r.term(k)));
                    }
                }
            }
            i += 1;
        }
        r
    }

    /// The number of distinct formulas held.
    pub fn actual_size(&self) -> (r: usize)
        ensures
            r == self.len(),
    {
        self.nodes.len()
    }

    /// Entry `i` of the table.
    pub fn get_node(&self, i: usize) -> (r: &CtlNode)
        requires
            i < self.len(),
        ensures
            *r == self.table()[i as int],
    {
        &self.nodes[i]
    }

    /// The shared handle of entry `i`.
    pub fn handle(&self, i: usize) -> (r: Rc<CTLFormula>)
        requires
            self.wf(),
            i < self.len(),
        ensures
            r@ == self.term(i as int),
            r == self.stored_handle(i as int),
    {
        self.handles[i].clone()
    }

    /// The index of the entry for `node`, added if the table has none yet.
    pub fn make(&mut self, node: CtlNode) -> (id: usize)
        requires
            old(self).wf(),
            children_below(node, old(self).len() as int),
        ensures
            final(self).wf(),
            final(self).extends(old(self)),
            final(self).keeps_terms(old(self)),
            final(self).keeps_handles(old(self)),
            id < final(self).len(),
            final(self).term(id as int) == node_term(old(self).table(), node),
            final(self).len() <= old(self).len() + 1,
            final(self).len() == old(self).len() + 1 ==> id == old(self).len(),
    {
        broadcast use vstd::std_specs::hash::group_hash_axioms;

        let key = key_of(&node);
        match self.index.get(&key) {
            Some(bucket) => {
                let mut j: usize = 0;
                while j < bucket.len()
                    invariant
                        self == old(self),
                        self.wf(),
                        self.index@.contains_key(key),
                        bucket@ == self.index@[key]@,
                        children_below(node, self.len() as int),
                        j <= bucket.len(),
                        forall|x: int| 0 <= x < j ==> !same_node(self.nodes@[#[trigger] bucket@[x] as int], node),
                    decreases bucket.len() - j,
                {
                    let i = bucket[j];
                    if node_matches(&self.nodes[i], &node) {
                        proof {
                            lemma_term_unfold(self.nodes@, i as int);
                        }
                        return i;
                    }
                    j += 1;
                }
                assert forall|k: int| 0 <= k < self.nodes.len() implies !same_node(#[trigger] self.nodes@[k], node) by {
                    if same_node(self.nodes@[k], node) {
                        assert(node_key(self.nodes@[k]) == node_key(node));
                        let x = choose|x: int| 0 <= x < bucket@.len() && bucket@[x] == k as usize;
                    }
                }
            },
            None => {
                assert forall|k: int| 0 <= k < self.nodes.len() implies !same_node(#[trigger] self.nodes@[k], node) by {
                    if same_node(self.nodes@[k], node) {
                        assert(node_key(self.nodes@[k]) == node_key(node));
                    }
                }
            },
        }
        let ghost old_nodes = self.nodes@;
        let handle = match &node {
            CtlNode::Top => Rc::new(CTLFormula::Top),
            CtlNode::Bot => Rc::new(CTLFormula::Bot),
            CtlNode::Atomic(s) => Rc::new(CTLFormula::Atomic(CTLVariable::new(s.clone()))),
            CtlNode::Unary(op, a) => Rc::new(make_unary(*op, self.handles[*a].clone())),
            CtlNode::Binary(op, a, b) => Rc::new(
                make_binary(*op, self.handles[*a].clone(), self.handles[*b].clone()),
            ),
        };
        let id = self.nodes.len();
        let ghost old_index = self.index@;
        let mut bucket = match self.index.remove(&key) {
            Some(b) => b,
            None => Vec::new(),
        };
        let ghost old_bucket = bucket@;
        bucket.push(id);
        self.index.insert(key, bucket);
        self.nodes.push(node);
        self.handles.push(handle);
        proof {
            assert(self.index@ == old_index.insert(key, self.index@[key]));
            assert(self.index@[key]@ == old_bucket.push(id));
            assert forall|i: int| 0 <= i < self.nodes.len() implies {
                let k = node_key(#[trigger] self.nodes@[i]) as u128;
                &&& self.index@.contains_key(k)
                &&& self.index@[k]@.contains(i as usize)
            } by {
                let k = node_key(self.nodes@[i]) as u128;
                if i == id {
                    assert(self.index@[key]@[old_bucket.len() as int] == id);
                } else {
                    assert(self.nodes@[i] == old_nodes[i]);
                    assert(old_index.contains_key(k) && old_index[k]@.contains(i as usize));
                    if k == key {
                        let x = choose|x: int| 0 <= x < old_index[k]@.len() && old_index[k]@[x] == i as usize;
                        assert(old_bucket == old_index[k]@);
                        assert(self.index@[key]@[x] == i as usize);
                    }
                }
            }
            assert forall|k: u128, j: int| #[trigger]
                self.index@.contains_key(k) && 0 <= j < self.index@[k].len() implies #[trigger] self.index@[k]@[j]
                    < self.nodes.len() by {
                if k == key {
                    if j < old_bucket.len() {
                        assert(old_index.contains_key(key));
                        assert(self.index@[k]@[j] == old_index[key]@[j]);
                    }
                } else {
                    assert(self.index@[k] == old_index[k]);
                }
            }
            assert forall|k: int| 0 <= k < old_nodes.len() implies term_of(self.nodes@, k) == term_of(
                old_nodes,
                k,
            ) by {
                lemma_term_prefix(old_nodes, self.nodes@, k);
            }
            assert(children_below(self.nodes@[id as int], id as int));
            assert(term_of(self.nodes@, id as int) == node_term(old_nodes, node));
            assert forall|a: int, b: int|
                0 <= a < self.nodes.len() && 0 <= b < self.nodes.len() && a != b implies !same_node(
                #[trigger] self.nodes@[a],
                #[trigger] self.nodes@[b],
            ) by {
                if a == id {
                    assert(!same_node(self.nodes@[b], node));
                } else if b == id {
                    assert(!same_node(self.nodes@[a], node));
                }
            }
        }
        id
    }

    /// The index of the entry for `formula`, adding entries for the
    /// sub-formulas that the table lacks.
    pub fn intern(&mut self, formula: &CTLFormula) -> (id: usize)
        requires
            old(self).wf(),
        ensures
            final(self).wf(),
            final(self).extends(old(self)),
            final(self).keeps_terms(old(self)),
            final(self).keeps_handles(old(self)),
            id < final(self).len(),
            final(self).term(id as int) == formula@,
            final(self).adds_only(old(self), subterms(formula@)),
            final(self).holds_all(subterms(formula@)),
        decreases formula@.size(), 1nat,
    {
        match formula {
            CTLFormula::Top => {
                let ghost s0 = *self;
                let id = self.make(CtlNode::Top);
                proof {
                    lemma_leaf_closure(&s0, self, formula@, id as int);
                }
                id
            },
            CTLFormula::Bot => {
                let ghost s0 = *self;
                let id = self.make(CtlNode::Bot);
                proof {
                    lemma_leaf_closure(&s0, self, formula@, id as int);
                }
                id
            },
            CTLFormula::Atomic(v) => {
                let ghost s0 = *self;
                let id = self.make(CtlNode::Atomic(v.inner.clone()));
                proof {
                    lemma_leaf_closure(&s0, self, formula@, id as int);
                }
                id
            },
            CTLFormula::Neg(a) => self.intern_unary(CtlUnOp::Neg, a),
            CTLFormula::EX(a) => self.intern_unary(CtlUnOp::EX, a),
            CTLFormula::EF(a) => self.intern_unary(CtlUnOp::EF, a),
            CTLFormula::EG(a) => self.intern_unary(CtlUnOp::EG, a),
            CTLFormula::AX(a) => self.intern_unary(CtlUnOp::AX, a),
            CTLFormula::AF(a) => self.intern_unary(CtlUnOp::AF, a),
            CTLFormula::AG(a) => self.intern_unary(CtlUnOp::AG, a),
            CTLFormula::And(a, b) => self.intern_binary(CtlBinOp::And, a, b),
            CTLFormula::Or(a, b) => self.intern_binary(CtlBinOp::Or, a, b),
            CTLFormula::ImpliesR(a, b) => self.intern_binary(CtlBinOp::ImpliesR, a, b),
            CTLFormula::ImpliesL(a, b) => self.intern_binary(CtlBinOp::ImpliesL, a, b),
            CTLFormula::BiImplies(a, b) => self.intern_binary(CtlBinOp::BiImplies, a, b),
            CTLFormula::EU(a, b) => self.intern_binary(CtlBinOp::EU, a, b),
            CTLFormula::AU(a, b) => self.intern_binary(CtlBinOp::AU, a, b),
        }
    }

    fn intern_unary(&mut self, op: CtlUnOp, a: &CTLFormula) -> (id: usize)
        requires
            old(self).wf(),
        ensures
            final(self).wf(),
            final(self).extends(old(self)),
            final(self).keeps_terms(old(self)),
            final(self).keeps_handles(old(self)),
            id < final(self).len(),
            final(self).term(id as int) == un(op, a@),
            final(self).adds_only(old(self), subterms(un(op, a@))),
            final(self).holds_all(subterms(un(op, a@))),
        decreases a@.size() + 1, 0nat,
    {
        let ghost s0 = *self;
        let c = self.intern(a);
        let ghost s1 = *self;
        let id = self.make(CtlNode::Unary(op, c));
        proof {
            lemma_step_closure(&s0, &s1, self, subterms(a@), un(op, a@), id as int);
        }
        id
    }

    fn intern_binary(&mut self, op: CtlBinOp, a: &CTLFormula, b: &CTLFormula) -> (id: usize)
        requires
            old(self).wf(),
        ensures
            final(self).wf(),
            final(self).extends(old(self)),
            final(self).keeps_terms(old(self)),
            final(self).keeps_handles(old(self)),
            id < final(self).len(),
            final(self).term(id as int) == bin(op, a@, b@),
            final(self).adds_only(old(self), subterms(bin(op, a@, b@))),
            final(self).holds_all(subterms(bin(op, a@, b@))),
        decreases a@.size() + b@.size() + 1, 0nat,
    {
        let ghost s0 = *self;
        let (c1, c2) = self.intern_pair(a, b);
        let ghost s1 = *self;
        let id = self.make(CtlNode::Binary(op, c1, c2));
        proof {
            lemma_step_closure(&s0, &s1, self, subterms(a@).union(subterms(b@)), bin(op, a@, b@), id as int);
        }
        id
    }

    fn intern_pair(&mut self, a: &CTLFormula, b: &CTLFormula) -> (r: (usize, usize))
        requires
            old(self).wf(),
        ensures
            final(self).wf(),
            final(self).extends(old(self)),
            final(self).keeps_terms(old(self)),
            final(self).keeps_handles(old(self)),
            r.0 < final(self).len(),
            r.1 < final(self).len(),
            final(self).term(r.0 as int) == a@,
            final(self).term(r.1 as int) == b@,
            final(self).adds_only(old(self), subterms(a@).union(subterms(b@))),
            final(self).holds_all(subterms(a@).union(subterms(b@))),
        decreases a@.size() + b@.size(), 0nat,
    {
        let ghost s0 = *self;
        let c1 = self.intern(a);
        let ghost s1 = *self;
        let c2 = self.intern(b);
        proof {
            self.lemma_extends_terms(&s1, c1 as int);
            lemma_pair_closure(&s0, &s1, self, a@, b@);
        }
        (c1, c2)
    }

    /// Interns `formula` and returns the canonical shared handle of its
    /// entry: equal formulas get handles to one allocation.
    pub fn create(&mut self, formula: Rc<CTLFormula>) -> (r: Rc<CTLFormula>)
        requires
            old(self).wf(),
        ensures
            final(self).wf(),
            final(self).extends(old(self)),
            final(self).keeps_terms(old(self)),
            final(self).keeps_handles(old(self)),
            final(self).adds_only(old(self), subterms(formula@)),
            final(self).holds_all(subterms(formula@)),
            exists|id: int|
                0 <= id < final(self).len() && final(self).term(id) == formula@ && r
                    == final(self).stored_handle(id),
            r@ == formula@,
    {
        let id = self.intern(&formula);
        self.handle(id)
    }
}

/// A leaf interned into `s0`, giving `s1`, adds at most its own entry.
proof fn lemma_leaf_closure(s0: &CTLFactory, s1: &CTLFactory, f: CtlTree, id: int)
    requires
        s1.keeps_terms(s0),
        s1.len() <= s0.len() + 1,
        s1.len() == s0.len() + 1 ==> id == s0.len(),
        0 <= id < s1.len(),
        s1.term(id) == f,
        subterms(f) == Set::<CtlTree>::empty().insert(f),
    ensures
        s1.adds_only(s0, subterms(f)),
        s1.holds_all(subterms(f)),
{
}

/// Interning the children into `s0` gave `s1`, whose additions and entries
/// cover `sub`; adding the node for `f` gave `s2`.
proof fn lemma_step_closure(
    s0: &CTLFactory,
    s1: &CTLFactory,
    s2: &CTLFactory,
    sub: Set<CtlTree>,
    f: CtlTree,
    id: int,
)
    requires
        s1.extends(s0),
        s1.adds_only(s0, sub),
        s1.holds_all(sub),
        s2.keeps_terms(s1),
        s2.extends(s1),
        s2.len() <= s1.len() + 1,
        s2.len() == s1.len() + 1 ==> id == s1.len(),
        0 <= id < s2.len(),
        s2.term(id) == f,
        subterms(f) == sub.insert(f),
    ensures
        s2.adds_only(s0, subterms(f)),
        s2.holds_all(subterms(f)),
{
    assert forall|k: int| s0.len() <= k < s2.len() implies subterms(f).contains(#[trigger] s2.term(k)) by {
        if k < s1.len() {
            assert(s2.term(k) == s1.term(k));
        }
    }
    assert forall|t: CtlTree| #[trigger] subterms(f).contains(t) implies s2.holds(t) by {
        if t != f {
            assert(s1.holds(t));
            let k = choose|k: int| 0 <= k < s1.len() && s1.term(k) == t;
            assert(s2.term(k) == s1.term(k));
        }
    }
}

/// Interning `a` and then `b` into `s0`, giving `s2`, adds only their
/// sub-formulas and holds all of them.
proof fn lemma_pair_closure(s0: &CTLFactory, s1: &CTLFactory, s2: &CTLFactory, a: CtlTree, b: CtlTree)
    requires
        s1.extends(s0),
        s1.adds_only(s0, subterms(a)),
        s1.holds_all(subterms(a)),
        s2.extends(s1),
        s2.keeps_terms(s1),
        s2.adds_only(s1, subterms(b)),
        s2.holds_all(subterms(b)),
    ensures
        s2.adds_only(s0, subterms(a).union(subterms(b))),
        s2.holds_all(subterms(a).union(subterms(b))),
{
    assert forall|k: int| s0.len() <= k < s2.len() implies subterms(a).union(subterms(b)).contains(
        #[trigger] s2.term(k),
    ) by {
        if k < s1.len() {
            assert(s2.term(k) == s1.term(k));
            assert(subterms(a).contains(s1.term(k)));
        }
    }
    assert forall|t: CtlTree| #[trigger] subterms(a).union(subterms(b)).contains(t) implies s2.holds(t) by {
        if subterms(a).contains(t) {
            assert(s1.holds(t));
            let k = choose|k: int| 0 <= k < s1.len() && s1.term(k) == t;
            assert(s2.term(k) == s1.term(k));
        } else {
            assert(subterms(b).contains(t));
        }
    }
}

/// Equal formulas get the same index: a formula interned into `f1` at `id1`
/// and an equal one interned afterwards, into the extension `f2`, at `id2`
/// share their index.
pub proof fn lemma_intern_canonical(
    f1: &CTLFactory,
    f2: &CTLFactory,
    id1: int,
    id2: int,
    phi: CtlTree,
    psi: CtlTree,
)
    requires
        f2.wf(),
        f2.extends(f1),
        0 <= id1 < f1.len(),
        0 <= id2 < f2.len(),
        f1.term(id1) == phi,
        f2.term(id2) == psi,
        phi == psi,
    ensures
        id1 == id2,
{
    f2.lemma_extends_terms(f1, id1);
    f2.lemma_wf();
    lemma_term_injective(f2.table(), id1, id2);
}

/// Equal formulas get the same handle: a formula created in `f1` with the
/// handle of entry `id1`, and an equal one created afterwards, in the
/// extension `f2`, with the handle of entry `id2`, get one handle.
pub proof fn lemma_create_canonical(
    f1: &CTLFactory,
    f2: &CTLFactory,
    id1: int,
    id2: int,
    phi: CtlTree,
    psi: CtlTree,
)
    requires
        f2.wf(),
        f2.extends(f1),
        f2.keeps_handles(f1),
        0 <= id1 < f1.len(),
        0 <= id2 < f2.len(),
        f1.term(id1) == phi,
        f2.term(id2) == psi,
        phi == psi,
    ensures
        f2.stored_handle(id2) == f1.stored_handle(id1),
{
    lemma_intern_canonical(f1, f2, id1, id2, phi, psi);
}

/// A shared handle for `formula` from a fresh factory.
pub fn memoize_ctl(formula: &CTLFormula) -> (r: Rc<CTLFormula>)
    ensures
        r@ == formula@,
{
    let mut factory = CTLFactory::new();
    let id = factory.intern(formula);
    factory.handle(id)
}

} // verus!
