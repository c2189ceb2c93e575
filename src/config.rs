//! The server's settings, after the sources have been merged.
//!
//! Each setting is taken from the command line, else from the configuration file (which the
//! environment may override), else from its default.
use vstd::prelude::*;

verus! {

/// Whether the web service also serves a single-page-application bundle.
#[derive(Debug)]
pub enum SpaBundle {
    Disabled,
    Path(String),
}

impl SpaBundle {
    /// The bundle at `path`, or none.
    pub fn from_path(path: Option<String>) -> (r: SpaBundle)
        ensures
            path is None <==> r is Disabled,
            path matches Some(p) ==> r matches SpaBundle::Path(q) && q@ == p@,
    {
        match path {
            Some(p) => SpaBundle::Path(p),
            None => SpaBundle::Disabled,
        }
    }
}

/// Where the control socket listens.
#[derive(Debug)]
pub struct ConfigUnix {
    pub socket_path: String,
}

/// A setting from the first source that gives it.
pub fn merge_setting<T>(cli: Option<T>, file: Option<T>, default: T) -> (r: T)
    ensures
        r == (if cli is Some {
            cli->0
        } else if file is Some {
            file->0
        } else {
            default
        }),
{
    match cli {
        Some(v) => v,
        None => match file {
            Some(v) => v,
            None => default,
        },
    }
}

/// The default port of the web service.
pub const DEFAULT_WEB_PORT: u16 = 3030;

} // verus!
