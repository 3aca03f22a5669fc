pub mod diff;
pub mod filter;
pub mod ihex16;
