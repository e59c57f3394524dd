pub mod application;
pub mod domain;
pub mod environment;
pub mod logging;
pub mod storage;
