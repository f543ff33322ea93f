//! Reusable workflow patterns with verified orchestration logic.
pub mod dag;
pub mod datasync;
pub mod duration;
pub mod error;
pub mod function;
pub mod graph;
pub mod helpers;
pub mod order;
pub mod patterns;
pub mod strmap;
pub mod text;
pub mod traits;
pub mod types;
