//! Finding installed JDKs and switching the active one by rewriting the machine's
//! environment: the JDK home variable and the executable search path.
//!
//! The environment is read into a [`registry_helper::RegistryHelper`] snapshot, whose
//! `%NAME%` references resolve recursively; [`path_list`] puts the JDK's `bin` entry first in
//! the search path; [`jdk`] picks JDKs out of a scanned directory tree; [`user_env`] decides
//! what the home variable and the search path should hold.

pub mod jdk;
pub mod path_list;
pub mod registry_helper;
pub mod user_env;
pub mod variable;
