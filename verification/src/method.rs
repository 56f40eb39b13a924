//! HTTP request methods.

use vstd::prelude::*;

verus! {

/// An HTTP request method, as used to key routes in a router.
///
/// Methods are compared by exact equality: a route registered for one method
/// is only found by lookups that use the same method.
#[derive(Clone, Copy, Debug, Eq, Hash, PartialEq, Structural)]
pub enum Method {
    Get,
    Head,
    Post,
    Put,
    Delete,
    Trace,
    Options,
    Connect,
    Patch,
}

} // verus!
