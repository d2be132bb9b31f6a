//! The typed SSA IR with explicit safepoints: values, blocks with parameters rather than phi
//! nodes, one terminator per block by construction, and the verifier that checks what the
//! types cannot.

pub mod dominance;
pub mod dump;
pub mod function;
pub mod types;
pub mod value;
pub mod verify;

pub use function::{
    BinaryOp, Block, BlockId, CompareOp, Constant, Function, FunctionId, Instruction, Op,
    Safepoint, Terminator, UnaryOp, ValueId,
};
pub use types::Type;
pub use value::{PropertyKey, ShapeId};
pub use verify::{verify, verify_module, VerifyError};
pub use dump::{dump, number_constants};
