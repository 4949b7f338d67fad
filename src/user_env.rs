//! Checking and correcting the JDK home variable and the executable search path.
use vstd::prelude::*;
use crate::jdk::JDK;
use crate::path_list::{
    bin_entry, join_path, join_with, reconcile_path, reconciled, split_on, split_path, views,
};
use crate::registry_helper::{lookup, value_of, EnvError, RegistryHelper};
use crate::variable::names_match;

verus! {

/// Name of the variable that holds the active JDK's home directory.
pub const JAVA_HOME: &'static str = "_JAVA_HOME_";

/// Name of the variable that holds the executable search path.
pub const PATH_VAR: &'static str = "Path";

/// The reference to the home variable as it is written inside other values.
pub const JAVA_HOME_REF: &'static str = "%_JAVA_HOME_%";

/// The launcher that a JDK home is expected to provide.
pub open spec fn launcher_under(home: Seq<char>) -> Seq<char> {
    home + "\\bin\\java.exe"@
}

/// Records `jdk` as the active JDK: the home variable takes its path.
pub fn set_java_home(handle: &mut RegistryHelper, jdk: &JDK)
    ensures
        forall|n: Seq<char>|
            #![trigger lookup(final(handle)@, n)]
            lookup(final(handle)@, n) == if names_match(JAVA_HOME@, n) {
                Some(jdk.path@)
            } else {
                lookup(old(handle)@, n)
            },
{
    handle.set_value(JAVA_HOME, jdk.path.as_str());
}

/// The entries of the search path, split at `;`. With `leave_variable` references such as
/// `%_JAVA_HOME_%` are kept as written; otherwise they are resolved first.
pub fn get_path_vars(handle: &RegistryHelper, leave_variable: bool) -> (r: Result<
    Vec<String>,
    EnvError,
>)
    ensures
        match value_of(handle@, PATH_VAR@, !leave_variable) {
            Ok(v) => r matches Ok(vars) && views(vars@) == split_on(v, ';'),
            Err(e) => r == Err::<Vec<String>, EnvError>(e),
        },
{
    match handle.get_value(PATH_VAR, !leave_variable) {
        Ok(path_vars) => Ok(split_path(path_vars.as_str(), ';')),
        Err(e) => Err(e),
    }
}

/// Decides whether the home variable needs a new value. `actual_launcher` is where the
/// system finds `java`, and `jdks` the JDKs found on this machine.
///
/// Where the variable is set, its value plus `\bin\java.exe` is compared with the launcher:
/// equal gives `None`, different gives the stored value back for the caller to correct, and a
/// failed probe is passed on. Where it is not set, the last JDK found is proposed, and with no
/// JDK at all the result is `NotFound`.
pub fn validate_java_home(
    handle: &RegistryHelper,
    actual_launcher: &Result<String, EnvError>,
    jdks: &Vec<JDK>,
) -> (r: Result<Option<String>, EnvError>)
    ensures
        match lookup(handle@, JAVA_HOME@) {
            Some(home) => match actual_launcher {
                Err(e) => r == Err::<Option<String>, EnvError>(*e),
                Ok(actual) => if launcher_under(home) == actual@ {
                    r == Ok::<Option<String>, EnvError>(None)
                } else {
                    r matches Ok(Some(s)) && s@ == home
                },
            },
            None => if jdks@.len() == 0 {
                r == Err::<Option<String>, EnvError>(EnvError::NotFound)
            } else {
                r matches Ok(Some(s)) && s@ == jdks@.last().path@
            },
        },
{
    match handle.get_value(JAVA_HOME, false) {
        Ok(java_home) => {
            let mut jdk_path = java_home.clone();
            jdk_path.append("\\bin\\java.exe");
            match actual_launcher {
                Err(e) => Err(*e),
                Ok(actual_path) => {
                    if jdk_path != *actual_path {
                        Ok(Some(java_home))
                    } else {
                        Ok(None)
                    }
                },
            }
        },
        Err(_) => {
            if jdks.len() == 0 {
                Err(EnvError::NotFound)
            } else {
                Ok(Some(jdks[jdks.len() - 1].path.clone()))
            }
        },
    }
}

/// The search path as it should be stored: the stored entries (references kept as written)
/// with `%_JAVA_HOME_%\bin` first, no other entry that begins with it, and every other entry in
/// its given order, joined with `;`. A missing search path is passed on as `NotFound`.
pub fn validate_env_path(handle: &RegistryHelper) -> (r: Result<Option<String>, EnvError>)
    ensures
        match lookup(handle@, PATH_VAR@) {
            Some(v) => r matches Ok(Some(s)) && s@ == join_with(
                reconciled(split_on(v, ';'), bin_entry(JAVA_HOME_REF@)),
                ';',
            ),
            None => r == Err::<Option<String>, EnvError>(EnvError::NotFound),
        },
{
    match get_path_vars(handle, true) {
        Ok(path_vars) => {
            let result = reconcile_path(&path_vars, JAVA_HOME_REF);
            Ok(Some(join_path(&result)))
        },
        Err(e) => Err(e),
    }
}

} // verus!
