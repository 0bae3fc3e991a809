pub mod chunks;
pub mod config;
pub mod decimal;
pub mod disks;
pub mod ids;
pub mod models;
pub mod paths;
pub mod placement;
pub mod reaper;
pub mod session;
pub mod storage;
