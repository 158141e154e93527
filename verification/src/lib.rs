pub mod arena;
pub mod binary;
pub mod cfg_recovery;
pub mod cfg_structuring;
pub mod disassemble;
pub mod dot;
pub mod graph;
pub mod text;
pub mod llir;
