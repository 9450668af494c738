//! Validation, sizing and index bookkeeping for Einstein-summation
//! expressions such as `"ij,jk->ik"`.
//!
//! - `parse`: the grammar of an expression and its parser;
//! - `contraction`: the output and summation indices of an expression;
//! - `sizes`: the length of every index, read off the operand shapes;
//! - `evaluate`: the positions visited by a direct einsum.
pub mod contraction;
pub mod evaluate;
pub mod parse;
pub mod sizes;
pub mod text;

pub use contraction::{generate_contraction, validate, Contraction};
pub use evaluate::{index_assignments, make_index, FlattenedOperand};
pub use parse::{parse_einsum_string, EinsumParse};
pub use sizes::{
    get_output_size_from_shapes, validate_and_size_from_shapes,
    validate_and_size_from_shapes_as_string, OperandSizes, OutputSize, SizedContraction,
};
