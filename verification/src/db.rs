//! Where the database lives, and what has to happen before it is opened.
use vstd::prelude::*;
use crate::text::{join_path, joined, owned};

verus! {

pub const DB_FILE: &'static str = "data.db";

/// The file in which an earlier version recorded a data directory.
pub const LEGACY_POINTER_FILE: &'static str = "data-dir.txt";

pub const APP_DIR: &'static str = "smart-todo";

/// `dirs::data_local_dir`: the platform's per-user local data directory,
/// when there is one, as text (a path that is not valid UTF-8 has its
/// invalid parts replaced by U+FFFD). Which directory that is depends on
/// the platform and the environment, so nothing is stated of the result.
#[verifier::external_body]
fn data_local_dir() -> (dir: Option<String>) {
    dirs::data_local_dir().map(|p| p.to_string_lossy().into_owned())
}

/// The app's config directory under a local data directory (the current
/// directory when there is none).
pub open spec fn config_dir_under(base: Option<Seq<char>>) -> Seq<char> {
    match base {
        Some(b) => joined(b, APP_DIR@),
        None => joined("."@, APP_DIR@),
    }
}

pub fn config_dir_from(base: Option<String>) -> (dir: String)
    ensures
        dir@ == config_dir_under(match base {
            Some(b) => Some(b@),
            None => None,
        }),
{
    match base {
        Some(b) => join_path(b.as_str(), APP_DIR),
        None => join_path(".", APP_DIR),
    }
}

/// App-owned config directory. Always local, never on a synced drive,
/// because it holds the pointer telling us which sync folder to use.
pub fn config_dir() -> (dir: String)
    ensures
        exists|base: Option<Seq<char>>| dir@ == config_dir_under(base),
{
    let base = data_local_dir();
    let ghost b = match &base {
        Some(x) => Some(x@),
        None => None,
    };
    let dir = config_dir_from(base);
    assert(dir@ == config_dir_under(b));
    dir
}

/// The database file inside a config directory.
pub fn db_path_in(config: &str) -> (p: String)
    ensures
        p@ == joined(config@, DB_FILE@),
{
    join_path(config, DB_FILE)
}

/// Full path to the database file. Always local: never a network share,
/// never a folder a cloud client writes to.
pub fn resolve_db_path() -> (p: String)
    ensures
        exists|base: Option<Seq<char>>| p@ == joined(config_dir_under(base), DB_FILE@),
{
    let config = config_dir();
    db_path_in(config.as_str())
}

/// Where an earlier version kept its pointer to a data directory.
pub fn legacy_pointer_path(config: &str) -> (p: String)
    ensures
        p@ == joined(config@, LEGACY_POINTER_FILE@),
{
    join_path(config, LEGACY_POINTER_FILE)
}

/// What the app has to do before it can open the database.
#[derive(Debug, PartialEq, Eq)]
pub struct Startup {
    pub db_path: String,
    /// A directory that used to hold the database and should now be adopted
    /// as the sync folder, with the local database published into it.
    pub adopt_sync_dir: Option<String>,
}

/// The startup plan: the database is always the local one; a directory an
/// earlier version kept the database in becomes the sync folder, unless a
/// sync folder is already configured.
pub fn startup_plan(config: &str, legacy: Option<String>, already_syncing: bool) -> (s: Startup)
    ensures
        s.db_path@ == joined(config@, DB_FILE@),
        match legacy {
            Some(l) => if already_syncing {
                s.adopt_sync_dir is None
            } else {
                s.adopt_sync_dir matches Some(d) && d@ == l@
            },
            None => s.adopt_sync_dir is None,
        },
{
    let db_path = db_path_in(config);
    match legacy {
        None => Startup { db_path, adopt_sync_dir: None },
        Some(l) => {
            if already_syncing {
                Startup { db_path, adopt_sync_dir: None }
            } else {
                Startup { db_path, adopt_sync_dir: Some(l) }
            }
        },
    }
}

/// Whether the database an earlier version left in a cloud folder is copied
/// home: only when there is one there and none here. An existing local
/// database is never overwritten; the cloud copy is merged in by sync.
pub fn should_bring_home(local_exists: bool, legacy_db_exists: bool) -> (copy: bool)
    ensures
        copy == (!local_exists && legacy_db_exists),
        local_exists ==> !copy,
{
    !local_exists && legacy_db_exists
}

} // verus!
