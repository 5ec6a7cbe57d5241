//! CXF (Control eXchange Format, a JSON-LD representation of CDL) import/export logic for the
//! Open Control Engine: the lossless document model, `@context` expansion, the class-IRI bridge,
//! port binding, declaration-chain planning, export deferral, and the composite rule catalog.
use vstd::prelude::*;

pub mod text;
pub mod bridge;
pub mod diag;
pub mod dto;
pub mod model;
pub mod report;
pub mod port_binding;
pub mod export_defer;
pub mod expr_scan;
pub mod declaration_scope;
pub mod json;
pub mod composite_rules;
pub mod declaration_plan;
pub mod expand;
pub mod context_scope;
pub mod specialize;
pub mod strmap;
pub mod composite_orientation;
pub mod orientation_laws;
pub mod ground;
pub mod arrays;
pub mod composite;
pub mod connection_orientation;
pub mod export_pass_through;
pub mod declaration_chain;
pub mod export;
pub mod value_types;
pub mod single_assignment;
pub mod diag_order;
pub mod boundary_outputs;
pub mod boundary_inputs;
pub mod array_nodes;
pub mod instance_interface;
pub mod export_ids;
pub mod export_same;
pub mod export_laws;
pub mod graph_index;

verus! {

} // verus!
