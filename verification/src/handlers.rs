pub mod api;
pub mod templates;
