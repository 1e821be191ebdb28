//! Constitutive computation: idempotents, splittings, CRDT joins, consensus,
//! run-length complexity estimates and graph Laplacians, with their laws.

pub mod constitutive;
pub mod crdt;
pub mod exact;
pub mod gcounter;
pub mod kolmogorov;
pub mod laplacian;
pub mod order;
pub mod warp;

pub use constitutive::{
    verify_splitting, ComputationCategory, ConservationByConstruction, Idempotent,
    SplittingVerification,
};
pub use crdt::{CrdtLawVerification, GSet, LwwRegister};
pub use gcounter::{verify_crdt_laws, zero_cost_check, GCounter};
pub use kolmogorov::{byte_overlap, run_length_bits, structure_complexity};
pub use laplacian::{complete_laplacian, cycle_laplacian, path_laplacian};
pub use order::{compare_bytes, compare_text, Order};
pub use warp::{AcceptorState, Ballot, WarpConsensusResult, WarpMessage, WarpRealization};
