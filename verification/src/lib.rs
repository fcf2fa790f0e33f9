//! Instruction selection for two 8-bit PIC cores, written and proved in Verus.
//!
//! A [`ir::Module`] and an address map go in; assembly text with one source
//! location per line comes out. [`baseline`] targets the 12-bit core,
//! [`pic14e`] the enhanced mid-range core. Every emitter states the exact
//! lines it adds; [`machine`] gives those lines a meaning. The law modules prove
//! of the emitted code what each law states, instruction by instruction and
//! routine by routine; [`timing`] speaks of whole programs that only wait.
pub mod baseline;
pub mod bodies;
pub mod body;
pub mod cfg;
pub mod consts;
pub mod ctx;
pub mod delay;
pub mod device;
pub mod edges;
pub mod emit;
pub mod error;
pub mod ir;
pub mod line;
pub mod located;
pub mod machine;
pub mod meaning;
pub mod names;
pub mod output;
pub mod pic14e;
pub mod reading;
pub mod runs;
pub mod runtime;
pub mod scan;
pub mod shape;
pub mod text;
pub mod timing;
pub mod whole;
