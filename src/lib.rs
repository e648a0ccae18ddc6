//! Guest-side access to the firmware configuration device of a virtual machine.
//!
//! A [`FwCfg`] session runs over a [`Transport`], the selector, data and DMA registers of
//! one device. It checks the device's signature, scans its file directory, finds files by
//! name, reads them and writes them by DMA. The session keeps a ghost record of every
//! register access and the device's answer, and its contracts are stated over that record.
//! Where a transport declares itself faithful (it answers as a device holding its items
//! does), the contracts also state the results over those items, through [`model`].
//! [`MemoryDevice`] is a faithful device held in memory.

pub mod bytes;
pub mod directory;
pub mod dma;
pub mod error;
pub mod file;
pub mod memory;
pub mod model;
pub mod probe;
pub mod session;
pub mod transport;
mod utf8;

pub use dma::FwCfgDmaAccess;
pub use error::{FwCfgError, FwCfgWriteError};
pub use file::FwCfgFile;
pub use memory::MemoryDevice;
pub use session::{FwCfg, Rejected};
pub use transport::Transport;
