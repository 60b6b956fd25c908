//! Combinatorics and exact algebra of tensor index symmetries: Young
//! diagrams and their Littlewood-Richardson products, generating sets of
//! slot symmetries, index contractions and permutation signs, mixed
//! tensor-spinor sectors, and exact linear systems over fractions.
pub mod shape;
pub mod lattice;
pub mod lr;
pub mod product;
pub mod exact;
pub mod dimension;
pub mod symmetry;
pub mod indices;
pub mod shape_order;
pub mod lr_bounds;
pub mod mixed;
pub mod newman_penrose;
pub mod numerical_gr;
pub mod trace_engine;
pub mod multiterm;
pub mod multiplicity_trace;
pub mod rational;
pub mod linear;
pub mod gauss;
pub mod linear_system;
pub mod sparse_apply;
pub mod match_result;
