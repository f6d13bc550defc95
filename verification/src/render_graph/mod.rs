pub mod access;
pub mod alias;
pub mod alias_laws;
pub mod aliasing_report;
pub mod analysis;
pub mod analysis_laws;
pub mod barrier_laws;
pub mod barriers;
pub mod bench_laws;
pub mod bench_support;
pub mod binding_laws;
pub mod compile;
pub mod compile_laws;
pub mod components;
pub mod dep_graph;
pub mod dump_laws;
pub mod frame_barrier_laws;
pub mod frame_laws;
pub mod graph;
pub mod internal_passes;
pub mod graph_debug;
pub mod graph_laws;
pub mod interval_set;
pub mod liveness;
pub mod memory_plan;
pub mod order_laws;
pub mod pass_builder;
pub mod pipeline_cache;
pub mod predecessors;
pub mod resource;
pub mod schedule;
pub mod sorting;
pub mod submission;
pub mod survival_laws;
pub mod transient_resources;
