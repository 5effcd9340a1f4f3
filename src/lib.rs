//! A live evaluator for a small Datalog-style rule language: a relational
//! node graph evaluated to a fixed point over facts that edits add and
//! remove, type inference over the rules by the same fixed-point pattern,
//! and the decisions that coordinate parallel lanes step by step.

pub mod value;
pub mod node;
pub mod eval;
pub mod facts;
pub mod syntax;
pub mod infer;
pub mod harness;
pub mod items;
pub mod frontend;
pub mod index;
pub mod aggregate;
