//! The persistence capability: a backend-agnostic interface over the whole
//! catalogue, the seeded default content, and the decision `initialize`
//! makes.  File handling itself lives with the embedding program; the
//! text that moves in and out of a backend is produced and checked by
//! [`crate::codec`].

use vstd::prelude::*;
use vstd::string::StringExecFns;
use crate::config::Config;
use crate::error::Error;

verus! {

/// Backend-agnostic storage for the catalogue.
///
/// Operates on the catalogue as a whole; the file-backed implementation
/// lives with the embedding program, and a database backend would slot in
/// the same way.
pub trait Storage {
    /// Load the full catalogue (aliases, links, groups).  Implementations
    /// are expected to surface `Config::validate` warnings without failing
    /// the load.
    fn load(&self) -> Result<Config, Error>;

    /// Save the full catalogue, replacing whatever was stored.
    fn save(&self, config: &Config) -> Result<(), Error>;

    /// Create the store with the seeded default catalogue if none exists
    /// yet; never overwrite an existing one.
    fn init(&self) -> Result<(), Error>;

    /// Human-readable backend name ("toml", "database", and the like).
    fn backend_name(&self) -> &str;

    /// Location of the underlying store, if file-based.
    fn path(&self) -> Option<String>;
}

/// The seeded default catalogue: two links, two aliases for each, and one
/// group holding one alias of each link.
pub open spec fn default_config_spec() -> Seq<char> {
    "# dkdc-links config file\n[aliases]\nalias1 = \"link1\"\na1 = \"link1\"\nalias2 = \"link2\"\na2 = \"link2\"\n[links]\nlink1 = \"https://crates.io/crates/dkdc-links\"\nlink2 = \"https://github.com/lostmygithubaccount/dkdc-links\"\n[groups]\ndev = [\"alias1\", \"alias2\"]\n"@
}

/// The text a fresh store is seeded with.
pub fn default_config_text() -> (r: String)
    ensures
        r@ == default_config_spec(),
{
    String::from_str(
        "# dkdc-links config file\n[aliases]\nalias1 = \"link1\"\na1 = \"link1\"\nalias2 = \"link2\"\na2 = \"link2\"\n[links]\nlink1 = \"https://crates.io/crates/dkdc-links\"\nlink2 = \"https://github.com/lostmygithubaccount/dkdc-links\"\n[groups]\ndev = [\"alias1\", \"alias2\"]\n",
    )
}

/// What `initialize` writes, given whether the store already exists.
pub open spec fn initialize_content_spec(store_exists: bool) -> Option<Seq<char>> {
    if store_exists {
        None
    } else {
        Some(default_config_spec())
    }
}

/// Decide what `initialize` writes: the seeded default when no store
/// exists yet, nothing otherwise — an existing store is never overwritten.
pub fn initialize_content(store_exists: bool) -> (r: Option<String>)
    ensures
        match r {
            Some(s) => !store_exists && s@ == default_config_spec(),
            None => store_exists,
        },
{
    if store_exists {
        None
    } else {
        Some(default_config_text())
    }
}

/// Initializing twice never changes the store after the first call: the
/// first call leaves the store existing whatever it found (either it
/// already existed, or the default was just written), and on an existing
/// store `initialize` writes nothing.
pub proof fn lemma_initialize_idempotent()
    ensures
        initialize_content_spec(true) is None,
        forall|e: bool| #[trigger] initialize_content_spec(e) is Some ==> !e,
{
}

} // verus!
