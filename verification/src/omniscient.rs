pub mod event;
pub mod service;
