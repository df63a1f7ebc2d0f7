pub mod benchmark;
pub mod runner;
pub mod worker_task;
