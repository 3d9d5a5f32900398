//! What the user can set of the client that lives in a tray.
use vstd::prelude::*;

verus! {

/// The name, whether files can be pinned, how often directories are refreshed,
/// and the icon.
#[derive(Debug)]
pub struct WindowsConfig {
    pub provider_name: String,
    pub allow_pinning: bool,
    pub refresh_secs: u64,
    pub icon: Option<String>,
}

/// What the user can set.
#[derive(Debug)]
pub struct AppConfig {
    pub windows: WindowsConfig,
}

/// The name if none is set.
pub const PROVIDER_NAME: &'static str = "Filestash";

/// How often directories are refreshed if nothing is set, in seconds.
pub const REFRESH_SECS: u64 = 10;

impl Default for WindowsConfig {
    fn default() -> (r: WindowsConfig)
        ensures
            r.provider_name@ == PROVIDER_NAME@,
            r.allow_pinning,
            r.refresh_secs == REFRESH_SECS,
            r.icon is None,
    {
        WindowsConfig {
            provider_name: PROVIDER_NAME.to_owned(),
            allow_pinning: true,
            refresh_secs: REFRESH_SECS,
            icon: None,
        }
    }
}

impl Default for AppConfig {
    fn default() -> (r: AppConfig)
        ensures
            r.windows.provider_name@ == PROVIDER_NAME@,
            r.windows.allow_pinning,
            r.windows.refresh_secs == REFRESH_SECS,
            r.windows.icon is None,
    {
        AppConfig { windows: WindowsConfig::default() }
    }
}

impl WindowsConfig {
    /// What is set, with the usual values for what is not.
    pub fn of(
        provider_name: Option<String>,
        allow_pinning: Option<bool>,
        refresh_secs: Option<u64>,
        icon: Option<String>,
    ) -> (r: WindowsConfig)
        ensures
            r.provider_name@ == match provider_name {
                Some(n) => n@,
                None => PROVIDER_NAME@,
            },
            r.allow_pinning == match allow_pinning {
                Some(b) => b,
                None => true,
            },
            r.refresh_secs == match refresh_secs {
                Some(n) => n,
                None => REFRESH_SECS,
            },
            r.icon == icon,
    {
        WindowsConfig {
            provider_name: match provider_name {
                Some(n) => n,
                None => PROVIDER_NAME.to_owned(),
            },
            allow_pinning: match allow_pinning {
                Some(b) => b,
                None => true,
            },
            refresh_secs: match refresh_secs {
                Some(n) => n,
                None => REFRESH_SECS,
            },
            icon,
        }
    }
}

impl AppConfig {
    /// What is set, with the usual values if nothing is.
    pub fn of(windows: Option<WindowsConfig>) -> (r: AppConfig)
        ensures
            match windows {
                Some(w) => r.windows == w,
                None => {
                    &&& r.windows.provider_name@ == PROVIDER_NAME@
                    &&& r.windows.allow_pinning
                    &&& r.windows.refresh_secs == REFRESH_SECS
                    &&& r.windows.icon is None
                },
            },
    {
        match windows {
            Some(windows) => AppConfig { windows },
            None => AppConfig::default(),
        }
    }
}

} // verus!
