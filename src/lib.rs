pub mod link_gatherer;
pub mod link_map;
pub mod process_heap;
pub mod run;
pub mod scope;
pub mod site_tracer;
pub mod strings;
pub mod trace;
pub mod tree;
