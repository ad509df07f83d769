//! Settings of the local store.

use vstd::prelude::*;
use crate::util::{KILOBYTE, MEGABYTE};

verus! {

/// Where the store keeps its data and how large its files grow.
pub struct Config {
    pub db_dir: String,
    pub file_size: usize,
    pub merge_size: usize,
}

impl Default for Config {
    fn default() -> (r: Self)
        ensures
            r.db_dir@ == seq!['.'],
            r.file_size == 4 * MEGABYTE,
            r.merge_size == 10 * KILOBYTE,
    {
        let dir = ".".to_string();
        proof {
            reveal_strlit(".");
        }
        Config { db_dir: dir, file_size: 4 * MEGABYTE, merge_size: 10 * KILOBYTE }
    }
}

} // verus!
