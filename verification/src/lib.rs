//! Verified core of two programs.
//!
//! The first aggregates statistics over JSON-lines dumps of question sites:
//! words and questions per site and per tag, and the ten "chattiest" sites
//! and tags by words per question. The second is a distributed ice-cream
//! shop: screens read their orders, a gateway captures payments, an order
//! manager hands orders to robots, robots take tastes from a shared stock
//! under a token-ring mutex. The decisions of each actor live here; sockets,
//! threads and actors live in the application around this library.

pub mod text;
pub mod keyed_table;
pub mod stats;
pub mod ranking;
pub mod processing_file;
pub mod generate_final_report;
pub mod fork_join;
pub mod pre_processing;
pub mod constant;
pub mod json;
pub mod order;
pub mod logic;
pub mod ice_cream_taste_repository;
pub mod order_manager;
pub mod interface;
pub mod gateway;
pub mod robot;
pub mod ring_dist_mutex;
