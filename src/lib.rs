//! Ownership inference for pointers: constraint sets over permission variables, their
//! interprocedural completion, their monomorphizations, the choice of a callee variant at each
//! call site, the removal of unusable variants, and the assembly of the per-function results.
pub mod constraint;
pub mod inst;
pub mod inter;
pub mod intra;
pub mod labeled_ty;
pub mod mono;
pub mod mono_filter;
pub mod node;
pub mod result;
pub mod summary;
