//! Engine configuration: where the repository lives on disk and the
//! sizes its bounded components are built with.

use vstd::prelude::*;

verus! {

/// The paths and sizes an engine is constructed from. Paths are held
/// as plain strings; the surrounding process resolves them against
/// the filesystem.
pub struct Config {
    pub abs_path: String,
    pub mount_path: String,
    pub wal_path: String,
    pub merkle_path: String,
    pub snap_path: String,
    pub store_path: String,
    pub cache_size: usize,
    pub chunk_size: usize,
}

impl Config {
    /// Lay the repository out under `<abs_path>/.kronos`, with one
    /// subdirectory per component, a 1024-entry cache and 64 KiB
    /// chunks.
    pub fn new(abs_path: String, mount_path: String) -> (r: Config)
        ensures
            r.abs_path@ == abs_path@,
            r.mount_path@ == mount_path@,
            r.wal_path@ == abs_path@ + "/.kronos"@ + "/wal"@,
            r.merkle_path@ == abs_path@ + "/.kronos"@ + "/merkle"@,
            r.snap_path@ == abs_path@ + "/.kronos"@ + "/snap"@,
            r.store_path@ == abs_path@ + "/.kronos"@ + "/store"@,
            r.cache_size == 1024,
            r.chunk_size == 65536,
    {
        let mut root = abs_path.clone();
        crate::storage::string_append(&mut root, "/.kronos");
        let mut wal_path = root.clone();
        crate::storage::string_append(&mut wal_path, "/wal");
        let mut merkle_path = root.clone();
        crate::storage::string_append(&mut merkle_path, "/merkle");
        let mut snap_path = root.clone();
        crate::storage::string_append(&mut snap_path, "/snap");
        let mut store_path = root.clone();
        crate::storage::string_append(&mut store_path, "/store");
        Config {
            abs_path,
            mount_path,
            wal_path,
            merkle_path,
            snap_path,
            store_path,
            cache_size: 1024,
            chunk_size: 65536,
        }
    }
}

} // verus!
