//! Query routing: maps request paths such as `/b/3/345/123000/1000999` to the
//! handler declared for them, with the path's typed arguments parsed, and
//! builds, from a handler's arguments, the path that leads back to it.

use vstd::prelude::*;

pub mod arg;
pub mod path;
pub mod router;
pub mod matcher;
pub mod builder;
pub mod laws;
pub mod round_trip;

verus! {

/// Router error.
#[derive(Debug)]
pub enum Error {
    /// No route matched the whole path, which is given.
    WrongPath(String),
}

impl Error {
    /// The error's message.
    pub fn message(&self) -> (r: String)
        ensures
            match self {
                Error::WrongPath(p) => r@ == "Found no matching pattern for the given path "@ + p@,
            },
    {
        match self {
            Error::WrongPath(p) => {
                let mut m = String::from_str("Found no matching pattern for the given path ");
                m.append(p.as_str());
                m
            },
        }
    }
}

} // verus!
