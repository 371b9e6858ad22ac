//! What a platform exposes of a process tree, and what it means.

pub mod linux;
pub mod loadavg;
pub mod loadavg_laws;
pub mod macos;
pub mod snapshot_laws;
pub mod tree;

pub use linux::LinuxSampler;
pub use macos::MacosSampler;
