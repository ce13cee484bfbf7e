pub mod company;
pub mod config;
pub mod patterns;
pub mod record;
pub mod registry_laws;
