//! The closed set of request methods.

use vstd::prelude::*;

use crate::text::str_eq;

verus! {

/// A request method. Any verb outside this set is a parse failure; there is
/// no "unknown method" variant.
#[derive(Debug, Copy, Clone, PartialEq, Eq, Structural)]
pub enum RequestMethod {
    Get,
    Post,
    Put,
    Patch,
    Delete,
}

/// The method a verb names: `Some` exactly for the five known verbs, written
/// in upper case.
pub open spec fn spec_method_of(s: Seq<char>) -> Option<RequestMethod> {
    if s == "GET"@ {
        Some(RequestMethod::Get)
    } else if s == "POST"@ {
        Some(RequestMethod::Post)
    } else if s == "PUT"@ {
        Some(RequestMethod::Put)
    } else if s == "DELETE"@ {
        Some(RequestMethod::Delete)
    } else if s == "PATCH"@ {
        Some(RequestMethod::Patch)
    } else {
        None
    }
}

impl RequestMethod {
    /// Reads a verb: `Ok` with the matching method for exactly the five known
    /// upper-case verbs, `Err` for every other string.
    pub fn try_from(value: &str) -> (r: Result<RequestMethod, ()>)
        ensures
            match spec_method_of(value@) {
                Some(m) => r == Ok::<RequestMethod, ()>(m),
                None => r == Err::<RequestMethod, ()>(()),
            },
    {
        if str_eq(value, "GET") {
            Ok(RequestMethod::Get)
        } else if str_eq(value, "POST") {
            Ok(RequestMethod::Post)
        } else if str_eq(value, "PUT") {
            Ok(RequestMethod::Put)
        } else if str_eq(value, "DELETE") {
            Ok(RequestMethod::Delete)
        } else if str_eq(value, "PATCH") {
            Ok(RequestMethod::Patch)
        } else {
            Err(())
        }
    }
}

} // verus!
