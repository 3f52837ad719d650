//! Where the process finds the registry database and its data directory.
use vstd::prelude::*;

verus! {

/// Paths the processes share.
pub struct AppConfig {
    /// The registry's database of did:plc numbers.
    pub zplc_path: String,
    /// Holds `db`, `backfill.db`, `live/` and `compacted/`.
    pub data_dir: String,
}

/// The default configuration.
pub fn get_app_config() -> (r: AppConfig)
    ensures
        r.zplc_path@ == "../zplc-server/data/ids.db"@,
        r.data_dir@ == "./data"@,
{
    AppConfig {
        zplc_path: "../zplc-server/data/ids.db".to_owned(),
        data_dir: "./data".to_owned(),
    }
}

} // verus!
