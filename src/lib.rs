pub mod byte_read;
pub mod compare;
pub mod laws;

pub use byte_read::{drain, ByteRead, IoByte, MemReader, DEFAULT_CAPACITY};
pub use compare::normal::{compare_normalized, normal_compare, normal_compare_bytewise};
pub use compare::numeric::{numeric_step, poll_token, NumericStep, Token, MAX_TOKEN_LEN};
pub use compare::strict::{compare_exact, try_strict_compare, StrictComparer};
pub use compare::{CompareError, CompareMode, CompareTask, Comparison};
