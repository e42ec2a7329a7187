pub mod bytes;
pub mod inode;
pub mod prefetch;
pub mod readdir;
pub mod fs;
