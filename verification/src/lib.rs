//! A small compiler pipeline for a dynamically typed toy language:
//! name resolution, flow-insensitive type analysis, layout selection,
//! lowering to a block-based SSA form, peephole optimization and C code
//! emission, together with a reference interpreter.

pub mod assoc;
pub mod fnset;
pub mod seqs;
pub mod symbol;
pub mod ast;
pub mod visit;
pub mod vars;
pub mod nameres;
pub mod nil_init;
pub mod analysis;
pub mod layout;
pub mod text;
pub mod ir;
pub mod comp;
pub mod fresh;
pub mod lower;
pub mod interp;
pub mod parse;
pub mod optimize;
pub mod monotone;
pub mod ty;
