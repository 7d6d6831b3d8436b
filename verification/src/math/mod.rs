pub mod organic;
pub mod polynomial;
pub mod quick;
pub mod stats;
