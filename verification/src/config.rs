//! Process configuration: the shared webhook secret, taken from the
//! environment by the caller and settled here, with the documented insecure
//! default when unset.

use vstd::prelude::*;

verus! {

/// Configuration read from environment variables.
#[derive(Debug, Clone)]
pub struct EnvVarConfig {
    pub ipn_secret: String,
}

impl EnvVarConfig {
    /// Settles the configuration from the raw environment value of the
    /// secret: the value itself when the variable is set, the documented
    /// insecure default when it is not.
    pub fn try_from_env(ipn_secret_var: Option<String>) -> (r: EnvVarConfig)
        ensures
            ipn_secret_var matches Some(v) ==> r.ipn_secret@ == v@,
            ipn_secret_var is None ==> r.ipn_secret@ == "dummy-secret-for-now"@,
    {
        match ipn_secret_var {
            Option::Some(v) => EnvVarConfig { ipn_secret: v },
            Option::None => EnvVarConfig { ipn_secret: "dummy-secret-for-now".to_owned() },
        }
    }
}

/// Why configuration could not be read from the environment.
#[derive(Debug, Clone, PartialEq, Eq)]
pub enum EstateEnvConfigError {
    /// The environment is not set up at all.
    EnvError,
    /// A variable is present but unusable; the text names it.
    EnvVarError(String),
}

} // verus!
