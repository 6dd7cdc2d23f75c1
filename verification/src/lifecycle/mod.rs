pub mod boot;
pub mod dag;
pub mod graph;
pub mod idle;
pub mod job;
pub mod manager;
pub mod report;
