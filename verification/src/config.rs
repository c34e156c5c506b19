//! Configuration validation and the path-resolution decisions.  Reading
//! files and probing the filesystem happen outside; this module decides,
//! from the facts handed in, which path is used and whether a parsed
//! configuration is acceptable.

use vstd::prelude::*;
use vstd::string::*;

use crate::types::{AppConfig, AppConfigView, AppError};

verus! {

/// A configuration is valid when it declares at least one interface and
/// no interface name is empty.
pub open spec fn config_valid(c: AppConfigView) -> bool {
    &&& c.interfaces.len() > 0
    &&& forall|i: int| 0 <= i < c.interfaces.len() ==> (#[trigger] c.interfaces[i].name).len() > 0
}

/// The path of the default configuration packaged with the application,
/// relative to the installation tree.
pub fn get_pkg_default_config_path() -> (r: String)
    ensures
        r@ == "pkg-files/config/default.yaml"@,
{
    String::from_str("pkg-files/config/default.yaml")
}

/// Decides which configuration file to load.  The caller reports which
/// candidates exist; the order is: explicit override (missing is fatal),
/// the system path, the packaged default, then a user configuration
/// file, whose path the caller supplies only when it exists.
pub fn choose_config_path(
    override_path: &Option<String>,
    override_exists: bool,
    system_exists: bool,
    pkg_exists: bool,
    user_config: &Option<String>,
) -> (r: Result<String, AppError>)
    ensures
        match *override_path {
            Some(ref p) => {
                if override_exists {
                    r matches Ok(q) && q@ == p@
                } else {
                    r matches Err(AppError::ConfigIo(m)) && m@
                        == "Specified config file not found: "@ + p@
                }
            },
            None => {
                if system_exists {
                    r matches Ok(q) && q@ == "/etc/rust-network-manager/config.yaml"@
                } else if pkg_exists {
                    r matches Ok(q) && q@ == "pkg-files/config/default.yaml"@
                } else {
                    match *user_config {
                        Some(ref u) => r matches Ok(q) && q@ == u@,
                        None => r matches Err(AppError::ConfigIo(m)) && m@
                            == "Configuration file not found"@,
                    }
                }
            },
        },
{
    match override_path {
        Some(p) => {
            if override_exists {
                Ok(p.clone())
            } else {
                let mut m = String::from_str("Specified config file not found: ");
                m.append(p.as_str());
                Err(AppError::ConfigIo(m))
            }
        },
        None => {
            if system_exists {
                Ok(String::from_str("/etc/rust-network-manager/config.yaml"))
            } else if pkg_exists {
                Ok(get_pkg_default_config_path())
            } else {
                match user_config {
                    Some(u) => Ok(u.clone()),
                    None => Err(AppError::ConfigIo(String::from_str("Configuration file not found"))),
                }
            }
        },
    }
}

/// Accepts a configuration exactly when it is valid; names the first
/// violated rule otherwise.
pub fn validate_config(config: &AppConfig) -> (r: Result<(), AppError>)
    ensures
        r is Ok <==> config_valid(config@),
        config@.interfaces.len() == 0 ==> (r matches Err(AppError::ConfigValidation(m)) && m@
            == "Configuration must include at least one interface."@),
        config@.interfaces.len() > 0 && !config_valid(config@) ==> (r matches Err(
            AppError::ConfigValidation(m),
        ) && m@ == "Interface name cannot be empty"@),
{
    if config.interfaces.len() == 0 {
        return Err(
            AppError::ConfigValidation(
                String::from_str("Configuration must include at least one interface."),
            ),
        );
    }
    let n = config.interfaces.len();
    let mut i: usize = 0;
    while i < n
        invariant
            n == config.interfaces@.len(),
            i <= n,
            forall|j: int| 0 <= j < i ==> (#[trigger] config@.interfaces[j].name).len() > 0,
        decreases n - i,
    {
        if config.interfaces[i].name.as_str().is_empty() {
            proof {
                assert(config@.interfaces[i as int].name.len() == 0);
            }
            return Err(
                AppError::ConfigValidation(String::from_str("Interface name cannot be empty")),
            );
        }
        proof {
            assert(config@.interfaces[i as int].name == config.interfaces@[i as int].name@);
        }
        i += 1;
    }
    Ok(())
}

/// The compute part of loading the initial configuration: takes the
/// parsed file contents and hands them back validated.
pub fn load_initial_config(config: AppConfig) -> (r: Result<AppConfig, AppError>)
    ensures
        config_valid(config@) ==> r == Result::<AppConfig, AppError>::Ok(config),
        !config_valid(config@) ==> r is Err,
        r is Ok <==> config_valid(config@),
{
    match validate_config(&config) {
        Ok(()) => Ok(config),
        Err(e) => Err(e),
    }
}

} // verus!
