//! Transaction-execution engine core: a kernel that manages a call-frame
//! stack over a transactional substate store, together with the node
//! ownership and lock discipline, deterministic id allocation, and a
//! system-loan fee reserve.

pub mod types;
pub mod decimal;
pub mod errors;
pub mod store;
pub mod heap;
pub mod track;
pub mod call_frame;
pub mod id_allocator;
pub mod fee_reserve;
pub mod modules;
pub mod kernel;
pub mod vault;
pub mod component;
pub mod keys;
pub mod proof_types;
pub mod interpretations;
