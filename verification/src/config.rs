//! Application settings.

use vstd::prelude::*;

verus! {

/// Where the application listens.
pub struct AppConfig {
    pub host: String,
    pub port: i32,
}

/// The settings of an application.
pub struct Config {
    pub app: AppConfig,
}

} // verus!
