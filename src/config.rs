use vstd::prelude::*;

verus! {

/// Seconds a tab pauses after a successful visit, unless configured.
pub fn default_wait_for_navigation() -> (r: u64)
    ensures
        r == 1,
{
    1
}

/// Retries allowed per URL, unless configured.
pub fn default_max_retries() -> (r: usize)
    ensures
        r == 10,
{
    10
}

/// Tabs in the worker pool, unless configured.
pub fn default_tab_count() -> (r: usize)
    ensures
        r == 5,
{
    5
}

/// Milliseconds before the first retry of a failed navigation, unless
/// configured; later retries wait exponentially longer.
pub fn default_backoff_base_ms() -> (r: u64)
    ensures
        r == 1000,
{
    1000
}

pub open spec fn default_user_data_dir_spec() -> Seq<char> {
    seq!['~', '/', '.', 'c', 'h', 'r', 'o', 'm', 'i', 'u', 'm']
}

/// Browser profile directory, unless configured.
pub fn default_user_data_dir() -> (r: String)
    ensures
        r@ == default_user_data_dir_spec(),
{
    let s = "~/.chromium";
    proof {
        reveal_strlit("~/.chromium");
    }
    s.to_owned()
}

/// Everything a run is configured with, validated once before the engine
/// starts and never changed during the run.
#[derive(Debug, Clone)]
pub struct Config {
    /// Browser executable; the driver's own search when absent.
    pub chrome_path: Option<String>,
    /// Browser profile directory.
    pub user_data_dir: String,
    /// Whether the browser runs without a window.
    pub headless: bool,
    /// Seconds a tab pauses after each successful visit.
    pub wait_for_navigation: u64,
    /// Retries allowed for one URL after its first failed navigation.
    pub max_retries: usize,
    /// Tabs in the worker pool.
    pub tab_count: usize,
    /// Milliseconds before the first retry.
    pub backoff_base_ms: u64,
}

/// Why a configuration cannot start a run.
#[derive(Debug, PartialEq, Eq, Structural)]
pub enum ConfigError {
    /// A pool of zero tabs would never visit anything.
    NoTabs,
}

impl Config {
    /// The configuration used when none is given.
    pub open spec fn is_default(&self) -> bool {
        &&& self.chrome_path is None
        &&& self.user_data_dir@ == default_user_data_dir_spec()
        &&& !self.headless
        &&& self.wait_for_navigation == 1
        &&& self.max_retries == 10
        &&& self.tab_count == 5
        &&& self.backoff_base_ms == 1000
    }

    pub open spec fn valid(&self) -> bool {
        self.tab_count >= 1
    }

    /// The configuration in force: the one that was found, or the default
    /// when none could be read.
    pub fn load(found: Option<Config>) -> (r: Config)
        ensures
            found is Some ==> r == found->0,
            found is None ==> r.is_default(),
    {
        match found {
            Some(c) => c,
            None => Config::default(),
        }
    }

    /// Checks the configuration before a run starts.
    pub fn validate(&self) -> (r: Result<(), ConfigError>)
        ensures
            r is Ok <==> self.valid(),
            r is Err ==> r == Err::<(), ConfigError>(ConfigError::NoTabs),
    {
        if self.tab_count == 0 {
            Err(ConfigError::NoTabs)
        } else {
            Ok(())
        }
    }
}

impl Default for Config {
    fn default() -> (r: Config)
        ensures
            r.is_default(),
    {
        Config {
            chrome_path: None,
            user_data_dir: default_user_data_dir(),
            headless: false,
            wait_for_navigation: default_wait_for_navigation(),
            max_retries: default_max_retries(),
            tab_count: default_tab_count(),
            backoff_base_ms: default_backoff_base_ms(),
        }
    }
}

} // verus!
