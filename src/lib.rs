pub mod classify;
pub mod token;
pub mod scan;
pub mod laws;
