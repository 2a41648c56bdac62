use vstd::prelude::*;

verus! {

/// The request verb of an HTTP-like request.
///
/// Routes are keyed by method as well as by pattern: a path that matches a
/// registered pattern is still no match when the methods differ.
#[derive(Clone, Copy, PartialEq, Eq, Hash, Debug, Structural)]
pub enum Method {
    Get,
    Post,
    Put,
    Delete,
    Head,
    Options,
    Patch,
    Trace,
    Connect,
}

} // verus!
