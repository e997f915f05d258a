//! Canonical normal forms, content hashes, structural diffs and safety rules
//! for operator graphs of signal transforms.

pub mod json;
pub mod text;
pub mod num;
pub mod decimal;
pub mod alias;
pub mod normalize;
pub mod order;
pub mod canon;
pub mod encode;
pub mod hash;
pub mod keys;
pub mod diff;
pub mod lint;
pub mod dsl;
pub mod eval;
pub mod records;
pub mod safety;
pub mod laws;
pub mod sortkeys;
pub mod fixpoint;
