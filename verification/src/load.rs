//! Loading a configuration: from what reading the file gave to a resolved
//! configuration or the reason why there is none.

use crate::model::{Config, ConfigView, Warning, WarningView};
use crate::raw::RawConfig;
use crate::resolve::{
    resolve_with, resolved_view, resolves_to, ResolveError, ResolveErrorView, DEFAULT_SHELL,
};
use vstd::prelude::*;

verus! {

/// A configuration and what is dubious about it.
#[derive(Debug)]
pub struct Loaded {
    pub config: Config,
    pub warnings: Vec<Warning>,
}

/// Why a configuration could not be loaded.
#[derive(Debug)]
pub enum LoadError {
    /// The file could not be read.
    Read(String),
    /// It is not the TOML of a configuration.
    Parse(String),
    /// What it says does not hold together.
    Resolve(ResolveError),
}

/// What reading a configuration file gave.
#[derive(Debug)]
pub enum Source {
    Unreadable(String),
    Unparsable(String),
    Written(RawConfig),
}

/// A load, as what resolving gave.
pub open spec fn load_result(r: Result<Loaded, LoadError>) -> Option<
    Result<(ConfigView, Seq<WarningView>), ResolveErrorView>,
> {
    match r {
        Ok(l) => Some(resolved_view(Ok((l.config, l.warnings)))),
        Err(LoadError::Resolve(e)) => Some(resolved_view(Err(e))),
        Err(_) => None,
    }
}

/// Load with `default_shell` wherever no `shell` is set.
pub fn load_with(source: Source, default_shell: &str) -> (r: Result<Loaded, LoadError>)
    ensures
        match source {
            Source::Unreadable(m) => r == Err::<Loaded, LoadError>(LoadError::Read(m)),
            Source::Unparsable(m) => r == Err::<Loaded, LoadError>(LoadError::Parse(m)),
            Source::Written(raw) => load_result(r) is Some && resolves_to(
                raw@,
                default_shell@,
                load_result(r)->0,
            ),
        },
{
    match source {
        Source::Unreadable(m) => Err(LoadError::Read(m)),
        Source::Unparsable(m) => Err(LoadError::Parse(m)),
        Source::Written(raw) => {
            match resolve_with(raw, default_shell) {
                Ok((config, warnings)) => Ok(Loaded { config, warnings }),
                Err(e) => Err(LoadError::Resolve(e)),
            }
        },
    }
}

/// Load with [`DEFAULT_SHELL`] wherever no `shell` is set.
pub fn load(source: Source) -> (r: Result<Loaded, LoadError>)
    ensures
        match source {
            Source::Unreadable(m) => r == Err::<Loaded, LoadError>(LoadError::Read(m)),
            Source::Unparsable(m) => r == Err::<Loaded, LoadError>(LoadError::Parse(m)),
            Source::Written(raw) => load_result(r) is Some && resolves_to(
                raw@,
                DEFAULT_SHELL@,
                load_result(r)->0,
            ),
        },
{
    load_with(source, DEFAULT_SHELL)
}

} // verus!
