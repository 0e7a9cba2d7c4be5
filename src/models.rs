mod model;

pub use model::{
    distinct_names, edge_at, edges_resolve, idx_set, lemma_pred_is_transpose, lists_edge,
    mentions, names_state, set_of, Kripke, Model, ModelCreationError, State,
};
