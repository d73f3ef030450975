//! The evaluator's tape: lowering, register allocation and the shader text.
pub mod evaluate;
pub mod lane;
pub mod lower;
pub mod regalloc;
pub mod tape;
pub mod wgsl;
