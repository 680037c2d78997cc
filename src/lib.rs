//! Job-dispatch engine for bulk, resumable visits of a list of URLs through a
//! pool of browser tabs.
//!
//! The engine is a state machine: every decision (which URL a tab takes next,
//! whether a failed navigation is retried, when a URL is marked visited, when
//! the run tears down) is made by a verified method, while the caller performs
//! the navigations, store writes and waits that the returned actions ask for.
pub mod backoff;
pub mod config;
pub mod engine;
pub mod feed;
pub mod message;

pub use config::{
    default_backoff_base_ms, default_max_retries, default_tab_count, default_user_data_dir,
    default_wait_for_navigation, Config, ConfigError,
};
pub use engine::{Engine, Pull, Retry, RunState, Stage, StartError, Teardown};
pub use message::Message;
