//! Dense integer matrices multiplied cell by cell: each output cell is an
//! independent dot-product task, and the product is reassembled from the
//! task results by the cell each result names, in whatever order they
//! arrive.

pub mod error;
pub mod matrix;
pub mod task;
pub mod text;
pub mod vector;

pub use error::MatrixError;
pub use matrix::{multiply, multiply_with_workers, Matrix, NUM_THREADS};
pub use task::{assemble, assign_worker, plan_tasks, run_task, MsgInput, MsgOutput};
pub use vector::{dot_product, dot_product_fits, Vector};
