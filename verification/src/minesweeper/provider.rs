pub mod greev;
pub mod mcplayhd;
pub mod provider;
