mod ctl_solver;

pub use ctl_solver::{
    af_set, af_step, eu_set, eu_step, iterate, lemma_af_halts, lemma_and_idempotent,
    lemma_double_negation, lemma_ef_is_eu, lemma_ag_is_not_ef_not, lemma_eu_halts,
    lemma_excluded_middle, lemma_sat_within, lemma_solver_ag_is_not_ef_not,
    lemma_solver_and_idempotent, lemma_solver_double_negation, lemma_solver_ef_is_eu,
    lemma_solver_excluded_middle, lemma_solver_fixed_points, sat, weight, CTLSolver,
};
