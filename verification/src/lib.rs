pub mod big_endian;
pub mod block;
pub mod codec;
pub mod errors;
pub mod proof_of_work;
pub mod transaction;
pub mod utils;

pub use block::Block;
pub use errors::BlockError;
pub use proof_of_work::ProofOfWork;
pub use transaction::Transaction;
pub use utils::current_timestamp;
pub use utils::sha256_digest;
