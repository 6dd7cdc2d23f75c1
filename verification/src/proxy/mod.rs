pub mod answer;
pub mod headers;
pub mod router;
