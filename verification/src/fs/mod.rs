use vstd::prelude::*;

pub mod ext2;
pub mod vfs;

verus! {

/// The longest name of a file, in bytes.
pub const MAX_FILENAME_LENGTH: usize = 256;

/// The longest path, in bytes.
pub const MAX_PATH_LENGTH: usize = 4096;

/// The operations on directories that a file system offers.
pub trait FileSystem {
    fn create_directory();

    fn delete_directory();

    fn open_directory();

    fn close_directory();

    fn read_directory();

    fn rename();
}

} // verus!
