//! LUT network synthesis with e-graphs: the circuit term language, its
//! truth-table helpers, extraction cost models, the rewrite-rule file format
//! and a structural Verilog netlist model. A netlist is held as a
//! `verilog::SVModule`; it becomes a term through `SVModule::to_single_expr`
//! (whole cones) or `SVModule::to_register_cone_expr` (register to register),
//! and a term becomes a netlist again through `SVModule::from_expr`.
pub mod cost;
pub mod dyn_extractor;
pub mod literal;
pub mod lut;
pub mod name_map;
pub mod rewrite_file;
pub mod text;
pub mod verilog;
