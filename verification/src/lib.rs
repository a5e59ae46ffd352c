//! Usage-log logic of the pi agent adapter and of the cross-agent report rows.
pub mod breakdown;
pub mod pi;
pub mod provider;
pub mod rows;
pub mod strset;
pub mod text;
