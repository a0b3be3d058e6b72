pub mod mcplay_provider;
