pub mod text;
pub mod boolean_expr;
pub mod hashing;
pub mod consistent_hash;
pub mod epring;
pub mod assoc;
pub mod routing;
pub mod types;
pub mod config;
pub mod proofs;
pub mod client_modes;
pub mod metrics;
pub mod stats;
pub mod blockchain;
pub mod migration;
pub mod verification;
pub mod acctrie_proof;
pub mod workload;
pub mod poly_proof;
pub mod boolean_proof;
pub mod acc_set_proof;
pub mod split_migration;
pub mod storager_link;
pub mod reply_roots;
pub mod mpt_proof;
pub mod update_plan;
pub mod proof_combine;
pub mod expr_roundtrip;
