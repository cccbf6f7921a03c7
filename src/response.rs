//! What a dispatch returns, and what registration rejects.

use vstd::prelude::*;

verus! {

/// The outcome of one dispatch.
pub enum Resp<T> {
    /// The route is valid and the handler filled the response with data.
    Filled(T),
    /// The route is valid and the handler returned nothing.
    NoResp,
    /// The route is valid but the handler reported an error of its own.
    InternalError(String),
    /// No route matched; the message names the path and the method.
    RoutingError(String),
}

impl<T> Resp<T> {
    /// True for a filled or an empty response, false for either error.
    pub fn is_success(&self) -> (r: bool)
        ensures
            r == (self is Filled || self is NoResp),
    {
        match self {
            Resp::Filled(_) | Resp::NoResp => true,
            _ => false,
        }
    }

    /// The value of a filled response.
    pub fn unwrap(self) -> (r: T)
        requires
            self is Filled,
        ensures
            r == self->Filled_0,
    {
        match self {
            Resp::Filled(t) => t,
            _ => {
                proof {
                    assert(false);
                }
                unreached()
            },
        }
    }
}

/// Why a route could not be registered.
#[derive(Debug, PartialEq, Eq)]
pub enum ConfigError {
    /// The path template breaks the template syntax.
    InvalidTemplate(String),
    /// The method name is none of GET, POST, HEAD, PUT, DELETE, CONNECT.
    UnknownMethod(String),
    /// The declared variable names differ from those of the template.
    VariableMismatch(String),
}

} // verus!
