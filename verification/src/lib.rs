pub mod api;
pub mod docker;
pub mod domain;
pub mod health;
pub mod lifecycle;
pub mod proxy;
pub mod text;
