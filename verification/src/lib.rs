//! A small FAT-style filesystem over fixed-size logical blocks.

pub mod error;
pub mod fs;
pub mod name;

pub use error::DirEntryLoc;
pub use error::FsError;
pub use error::NodeId;
pub use fs::BlockId;
pub use fs::BootSector;
pub use fs::ClusterId;
pub use fs::Fcb;
pub use fs::FcbAttr;
pub use fs::FileHandle;
pub use fs::NodeKind;
pub use fs::U16Date;
pub use fs::U16Time;
pub use name::DirSlot;
pub use name::ShortName;
pub mod fat;
pub mod util;

pub use fat::FatEntry;
pub mod config;

pub use config::FsConfig;
pub mod dev;

pub use dev::BufferedBlockDevice;
pub use dev::LogicalBlockDevice;
pub use dev::MemoryBackend;
pub use dev::MemoryBlockDevice;
pub use dev::PhysicalBlockDevice;
pub use dev::PhysicalBlockId;
pub mod layout;
pub mod myfs;

pub use myfs::MyFileSystem;
pub use myfs::OpenFile;
pub mod chain;
pub mod clusters;
pub mod mount;
pub mod dir;
pub mod slots;
pub mod clock;
pub mod lookup;
pub mod tree;
pub mod fileio;
pub mod handles;
pub mod entries;
pub mod nodes;
pub mod report;
pub mod paths;
pub mod navigate;
pub mod naming;

pub use chain::ChainIter;
pub use clock::UtcDateTime;
pub use nodes::DirEntry;
pub use nodes::DirEntryIter;
pub use nodes::NodeMeta;
