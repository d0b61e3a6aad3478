pub mod defs;
pub mod generator;
pub mod helpers;
pub mod move_list;
pub mod redundant_move_filter;
pub mod searcher;
pub mod structure;
pub mod table;
pub mod transforms;
pub mod transforms_beta;
