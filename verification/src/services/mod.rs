pub mod template;
pub mod company;
pub mod smtp;
pub mod release;
pub mod smtp_laws;
pub mod check;
