pub mod ieee;
pub mod models;
pub mod text;
pub mod policy;
pub mod clock;
pub mod summary;
pub mod flow;
pub mod activity;
pub mod ai;
pub mod capture;
pub mod recorder;
pub mod api;
pub mod records;
pub mod native;
pub mod rhythm;
pub mod paths;
