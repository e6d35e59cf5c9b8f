//! The editor's greeting.
use vstd::prelude::*;

verus! {

/// `Hello, <name>!`.
pub fn greet(name: &str) -> (r: String)
    ensures
        r@ == "Hello, "@ + name@ + "!"@,
{
    let mut out = String::new();
    out.append("Hello, ");
    out.append(name);
    out.append("!");
    out
}

} // verus!
