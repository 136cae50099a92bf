//! Regenerates C declarations from a BTF type graph.
//!
//! A BTF blob describes the types of a program as a graph of nodes that refer
//! to each other by integer id. This library holds such a graph in memory,
//! answers size and alignment queries on it, and writes a header of C
//! declarations for a chosen subset of its named definitions: ordered so that
//! every definition precedes its users, with forward declarations where
//! references through pointers form cycles.
//!
//! The modules, from the ground up:
//!
//! - [`types`]: the nodes of a graph; [`describe`]: their descriptions;
//!   [`error`]: the errors.
//! - [`wire`] and [`parse`]: decoding the binary format.
//! - [`btf`]: the graph, its well-formedness, sizes and alignments.
//! - [`blacklist`], [`names`], [`text`], [`layout`]: what declarations are
//!   made of.
//! - [`decl`]: what the text of a declaration is; [`emitter`]: writing it.
//! - [`order`]: the order of definitions; [`pass`]: what a dump writes;
//!   [`c_dumper`]: the dumper.
//! - [`order_laws`], [`emit_laws`], [`decl_laws`], [`align_laws`],
//!   [`pad_laws`]: what holds of all this.
pub mod align_laws;
pub mod blacklist;
pub mod btf;
pub mod c_dumper;
pub mod decl;
pub mod decl_laws;
pub mod describe;
pub mod emit_laws;
pub mod emitter;
pub mod error;
pub mod layout;
pub mod names;
pub mod order;
pub mod order_laws;
pub mod pad_laws;
pub mod parse;
pub mod pass;
pub mod text;
pub mod types;
pub mod wire;
