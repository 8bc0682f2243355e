//! The store's file layout under the caller-supplied configuration and
//! data directories: one snapshot file for the queue beside its lock
//! file, one document each for the metadata cache, the category names and
//! the configuration, and a directory of journal segments.

use vstd::prelude::*;

verus! {

/// Where each store file lives, as plain path strings.
pub struct AppPaths {
    pub config_file: String,
    pub queue_file: String,
    pub lock_file: String,
    pub metadata_file: String,
    pub categories_file: String,
    pub history_dir: String,
}

impl AppPaths {
    /// Lays the store files out under the two base directories: the
    /// configuration document in the configuration directory, everything
    /// else in the data directory.
    pub fn init(config_dir: &str, data_dir: &str) -> (r: AppPaths)
        ensures
            r.config_file@ == config_dir@ + "/config.dat"@,
            r.queue_file@ == data_dir@ + "/queue.dat"@,
            r.lock_file@ == data_dir@ + "/queue.lock"@,
            r.metadata_file@ == data_dir@ + "/metadata.dat"@,
            r.categories_file@ == data_dir@ + "/categories.json"@,
            r.history_dir@ == data_dir@ + "/history"@,
    {
        let mut config_file = config_dir.to_owned();
        config_file.append("/config.dat");
        let mut queue_file = data_dir.to_owned();
        queue_file.append("/queue.dat");
        let mut lock_file = data_dir.to_owned();
        lock_file.append("/queue.lock");
        let mut metadata_file = data_dir.to_owned();
        metadata_file.append("/metadata.dat");
        let mut categories_file = data_dir.to_owned();
        categories_file.append("/categories.json");
        let mut history_dir = data_dir.to_owned();
        history_dir.append("/history");
        AppPaths { config_file, queue_file, lock_file, metadata_file, categories_file, history_dir }
    }
}

} // verus!
