mod ctl_types;
mod ltl_types;

pub use ctl_types::{
    bin, children_below, lemma_create_canonical, lemma_intern_canonical, lemma_subterms_self, lemma_term_injective,
    lemma_term_unfold, memoize_ctl, node_term, same_node, sub_of_some, subterms, table_wf, term_of,
    un, CTLFactory, CTLFormula, CTLVariable, CtlBinOp, CtlNode, CtlTree, CtlUnOp,
};
pub use ltl_types::{
    lemma_ltl_create_canonical, lemma_ltl_intern_canonical, lemma_ltl_term_injective, ltl_sub_of_some, ltl_subterms,
    memoize_ltl, LTLFactory, LTLFormula, LTLVariable, LtlBinOp, LtlNode, LtlTree, LtlUnOp,
};
