//! Read-only decoder for exFAT volumes: boot sector, allocation table,
//! directory entry sets, and file contents addressed by path or by a
//! stable 64-bit identifier.

pub mod bpb;
pub mod compat;
pub mod direntry;
pub mod exinode;
pub mod fat;
pub mod fs;
pub mod index;
pub mod le;
pub mod order;
pub mod path;
pub mod source;
pub mod table;
pub mod text;
pub mod volume;

pub use crate::bpb::BootSector;
pub use crate::fs::ExFatFS;
