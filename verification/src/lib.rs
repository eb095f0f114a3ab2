//! Fan control for Macs with a T2 chip: temperature history, speed curves, the
//! texts that go to and come from the control files, and the decisions of a
//! daemon's life.

pub mod binary32;
pub mod config;
pub mod discovery;
pub mod error;
pub mod fan_controller;
pub mod monitor;
pub mod pid_file;
pub mod sensor;
pub mod session;
pub mod text;
