pub mod digest;
pub mod pow;
pub mod text;
pub mod units;
pub mod api;
pub mod retry;
pub mod laws;
