//! An in-memory file store with POSIX-like paths: directories of named
//! children and files of bytes, whose whole state can be saved to bytes and
//! restored.

pub mod error;
pub mod keyed;
pub mod laws;
pub mod model;
pub mod path;
pub mod snapshot;
pub mod store;
pub mod vfs;

pub use error::FsError;
pub use path::normalize;
pub use snapshot::{fs_dump_state, fs_init_from_bytes};
pub use store::Vfs;
pub use vfs::{
    fs_cp, fs_mkdir, fs_mv, fs_read_file, fs_readdir, fs_rm, fs_rmdir, fs_stat, fs_write_file,
    StatResult,
};
