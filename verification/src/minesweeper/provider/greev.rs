pub mod greev_provider;
